//! The hash-addressed rolling proof: the live action log, up to three
//! checkpoint-signature slots, and the replayed state.
//!
//! Slot 0 belongs to the owner, slots 1 and 2 to players 0 and 1.  Each
//! filled slot holds a checkpoint state, the range of the log its signature
//! covers, and the signature.  At least one slot's range starts at the head
//! of the log, and if the owner's slot is empty both player slots are
//! filled.

use vstd::prelude::*;
use crate::{Action, Error, Player, State};
use crate::action::{
    flat_ser, framed_ser, pa_all_wf, pa_views, pa_wf, ProofAction, ProofActionV,
    write_actions_flat, write_actions_framed,
};
use crate::codec;
use crate::crypto;
use crate::crypto::{keccak_of, recover_of, Signer};
use crate::diff::{Diff, DiffV};
use crate::action::actions_de;
use crate::proof_state::{
    lemma_ps_replay_concat, lemma_ps_replay_prefix, lemma_ps_replay_snoc, ps_apply, ps_class,
    ps_de, ps_player_of, ps_replay, ps_ser, ps_serializable, ps_wf, ProofState, ProofStateV,
};
use crate::root_proof::{root_wf, RootProof, RootProofV};

verus! {

/// The abstract model of a checkpoint-signature slot.
pub struct PlayerProofV<SV> {
    pub state: ProofStateV<SV>,
    pub start: int,
    pub end: int,
    pub signature: Seq<u8>,
}

/// A checkpoint-signature slot: a checkpoint state, the log range the
/// signature covers, and the signature.
pub(crate) struct PlayerProof<S: State> {
    pub(crate) state: ProofState<S>,
    pub(crate) start: usize,
    pub(crate) end: usize,
    pub(crate) signature: Vec<u8>,
}

impl<S: State> View for PlayerProof<S> {
    type V = PlayerProofV<S::V>;

    open(crate) spec fn view(&self) -> PlayerProofV<S::V> {
        PlayerProofV {
            state: self.state@,
            start: self.start as int,
            end: self.end as int,
            signature: self.signature@,
        }
    }
}

/// The abstract model of a `Proof`.
pub struct ProofV<SV> {
    pub root: RootProofV<SV>,
    pub actions: Seq<ProofActionV>,
    pub proofs: Seq<Option<PlayerProofV<SV>>>,
    pub hash: Seq<u8>,
    pub state: ProofStateV<SV>,
}

/// The slot views of a slot vector.
pub open spec fn slot_views<S: State>(s: Seq<Option<PlayerProof<S>>>) -> Seq<
    Option<PlayerProofV<S::V>>,
> {
    s.map_values(
        |p: Option<PlayerProof<S>>|
            match p {
                Some(pp) => Some(pp@),
                None => None,
            },
    )
}

/// The freshest filled slot: the one whose range ends last, later slots
/// winning ties.
pub open spec fn fresh_ix<SV>(proofs: Seq<Option<PlayerProofV<SV>>>) -> int
    decreases proofs.len(),
{
    if proofs.len() <= 1 {
        0
    } else {
        let rest = fresh_ix(proofs.drop_last());
        let last = proofs.len() - 1;
        match (proofs[rest], proofs[last]) {
            (Some(a), Some(b)) => if b.end >= a.end {
                last
            } else {
                rest
            },
            (None, Some(_)) => last,
            _ => rest,
        }
    }
}

/// The first filled slot whose range starts at the head of the log.
pub open spec fn earliest_ix<SV>(proofs: Seq<Option<PlayerProofV<SV>>>) -> int
    decreases proofs.len(),
{
    if proofs.len() == 0 {
        0
    } else if proofs[0] matches Some(p) && p.start == 0 {
        0
    } else {
        1 + earliest_ix(proofs.skip(1))
    }
}

/// The wire encoding of the slot table: a presence byte per slot, and for a
/// filled slot its range bounds and signature.
pub open spec fn slots_ser<SV>(proofs: Seq<Option<PlayerProofV<SV>>>) -> Seq<u8>
    decreases proofs.len(),
{
    if proofs.len() == 0 {
        Seq::empty()
    } else {
        slots_ser(proofs.drop_last()) + match proofs.last() {
            Some(p) => seq![1u8] + codec::u32_le(p.start as u32) + codec::u32_le(p.end as u32)
                + p.signature,
            None => seq![0u8],
        }
    }
}

/// The wire encoding of a proof: the earliest slot's checkpoint state with
/// its length, the framed action log, then the three slots.
pub open spec fn proof_ser<S: State>(v: ProofV<S::V>) -> Seq<u8> {
    let e = earliest_ix(v.proofs);
    let base = ps_ser::<S>(v.proofs[e].unwrap().state);
    codec::u32_le(base.len() as u32) + base + codec::u32_le(v.actions.len() as u32) + framed_ser(
        v.actions,
    ) + slots_ser(v.proofs)
}

/// Whether one slot is well formed against a log of `n` actions.
pub open spec fn slot_wf<S: State>(p: PlayerProofV<S::V>, n: int) -> bool {
    &&& ps_wf::<S>(p.state)
    &&& ps_serializable::<S>(p.state)
    &&& ps_ser::<S>(p.state).len() <= u32::MAX
    &&& 0 <= p.start <= p.end <= n
    &&& p.signature.len() == 65
}

/// Whether a proof model is well formed.
///
/// At least one filled slot starts at the head of the log; if the owner's
/// slot is empty, both player slots are filled; and the live state is the
/// freshest slot's checkpoint with the log's tail replayed.
pub open spec fn proof_wf<S: State>(v: ProofV<S::V>) -> bool {
    &&& root_wf::<S>(v.root)
    &&& v.actions.len() <= u32::MAX
    &&& forall|i: int| 0 <= i < v.actions.len() ==> pa_wf::<S::Action>(#[trigger] v.actions[i])
    &&& v.proofs.len() == 3
    &&& forall|i: int|
        0 <= i < 3 ==> ((#[trigger] v.proofs[i]) matches Some(p) ==> slot_wf::<S>(
            p,
            v.actions.len() as int,
        ))
    &&& exists|i: int| 0 <= i < 3 && ((#[trigger] v.proofs[i]) matches Some(p) && p.start == 0)
    &&& (v.proofs[0] is None ==> v.proofs[1] is Some && v.proofs[2] is Some)
    &&& forall|i: int|
        0 <= i < 3 ==> ((#[trigger] v.proofs[i]) matches Some(p) ==> ps_replay::<S>(
            p.state,
            v.actions.skip(p.start),
        ) == Some(v.state))
    &&& ps_wf::<S>(v.state)
    &&& v.hash == keccak_of(proof_ser::<S>(v))
    &&& v.hash.len() == 32
}

/// The duality between checkpoints and slots: the state replayed to a
/// position is serializable exactly when some slot's range starts there, and
/// unserializable whenever some slot's range covers it strictly.
/// Deserialization checks this for every position of the log.
pub open spec fn proof_duality<S: State>(v: ProofV<S::V>) -> bool {
    let e = earliest_ix(v.proofs);
    let base = v.proofs[e].unwrap().state;
    forall|i: int|
        0 <= i <= v.actions.len() ==> {
            let w = #[trigger] ps_replay::<S>(base, v.actions.take(i));
            &&& ((exists|j: int|
                0 <= j < 3 && ((#[trigger] v.proofs[j]) matches Some(p) && p.start == i)) ==> (
            w matches Some(x) && ps_serializable::<S>(x)))
            &&& ((exists|j: int|
                0 <= j < 3 && ((#[trigger] v.proofs[j]) matches Some(p) && p.start < i <= p.end))
                ==> (w matches Some(x) && !ps_serializable::<S>(x)))
        }
}

/// Decodes `k` slot headers: a presence byte, then for a filled slot its
/// range bounds and 65-byte signature.
pub open spec fn slots_de(data: Seq<u8>, at: int, k: int) -> Option<
    (Seq<Option<(int, int, Seq<u8>)>>, int),
>
    decreases k,
{
    if k <= 0 {
        Some((Seq::empty(), at))
    } else if at + 1 > data.len() {
        None
    } else if data[at] == 0 {
        match slots_de(data, at + 1, k - 1) {
            Some(r) => Some((seq![None] + r.0, r.1)),
            None => None,
        }
    } else if data[at] == 1 {
        if at + 74 <= data.len() {
            let start = codec::le_u32(data.subrange(at + 1, at + 5));
            let end = codec::le_u32(data.subrange(at + 5, at + 9));
            let sig = data.subrange(at + 9, at + 74);
            match slots_de(data, at + 74, k - 1) {
                Some(r) => Some((seq![Some((start, end, sig))] + r.0, r.1)),
                None => None,
            }
        } else {
            None
        }
    } else {
        None
    }
}

/// The wire encoding of decoded slot headers.
pub open spec fn raw_slots_ser(raws: Seq<Option<(int, int, Seq<u8>)>>) -> Seq<u8>
    decreases raws.len(),
{
    if raws.len() == 0 {
        Seq::empty()
    } else {
        raw_slots_ser(raws.drop_last()) + match raws.last() {
            Some(r) => seq![1u8] + codec::u32_le(r.0 as u32) + codec::u32_le(r.1 as u32) + r.2,
            None => seq![0u8],
        }
    }
}

/// The structural checks on decoded slot headers: ranges inside the log,
/// one range starting at its head, not every slot filled, and the owner's
/// slot missing only when both player slots are present.
pub open spec fn slot_shape_ok(raws: Seq<Option<(int, int, Seq<u8>)>>, n: int) -> bool {
    &&& raws.len() == 3
    &&& forall|j: int|
        0 <= j < 3 ==> ((#[trigger] raws[j]) matches Some(r) ==> 0 <= r.0 <= r.1 <= n)
    &&& exists|j: int| 0 <= j < 3 && ((#[trigger] raws[j]) matches Some(r) && r.0 == 0)
    &&& !(raws[0] is Some && raws[1] is Some && raws[2] is Some)
    &&& (raws[0] is None ==> raws[1] is Some && raws[2] is Some)
}

/// Every action is reachable under some covering slot: an owner action
/// under the owner's, a player action under the owner's or that player's.
pub open spec fn reach_ok(actions: Seq<ProofActionV>, raws: Seq<Option<(int, int, Seq<u8>)>>) -> bool {
    forall|i: int|
        0 <= i < actions.len() ==> match (#[trigger] actions[i]).player {
            None => raws[0] matches Some(r) && r.1 > i,
            Some(p) => (raws[0] matches Some(r) && r.1 > i) || (1 + p < 3 && (raws[1
                + p as int] matches Some(r) && r.1 > i)),
        }
}

/// The per-position duality checks: a position where a slot starts replays
/// to a checkpoint, a position a slot covers strictly replays off one.
pub open spec fn slot_states_ok<S: State>(
    base: ProofStateV<S::V>,
    actions: Seq<ProofActionV>,
    raws: Seq<Option<(int, int, Seq<u8>)>>,
) -> bool {
    forall|i: int|
        0 <= i <= actions.len() ==> {
            let w = #[trigger] ps_replay::<S>(base, actions.take(i));
            &&& ((exists|j: int|
                0 <= j < 3 && ((#[trigger] raws[j]) matches Some(r) && r.0 == i)) ==> (w
                matches Some(x) && ps_serializable::<S>(x)))
            &&& ((exists|j: int|
                0 <= j < 3 && ((#[trigger] raws[j]) matches Some(r) && r.0 < i <= r.1)) ==> (w
                matches Some(x) && !ps_serializable::<S>(x)))
        }
}

/// The slot table assembled from decoded headers: each filled slot's state
/// is the base state replayed to the start of its range.
pub open spec fn mk_slots<S: State>(
    base: ProofStateV<S::V>,
    actions: Seq<ProofActionV>,
    raws: Seq<Option<(int, int, Seq<u8>)>>,
) -> Seq<Option<PlayerProofV<S::V>>> {
    Seq::new(
        3,
        |j: int|
            match raws[j] {
                Some(r) => Some(
                    PlayerProofV {
                        state: ps_replay::<S>(base, actions.take(r.0)).unwrap(),
                        start: r.0,
                        end: r.1,
                        signature: r.2,
                    },
                ),
                None => None,
            },
    )
}

/// The signature checks on an assembled slot table: each filled slot's
/// signature covers its checkpoint state and range, recovering to the
/// owner for slot 0 and to the matching player otherwise.
pub open spec fn slot_sigs_ok<S: State>(
    root_author: Seq<u8>,
    actions: Seq<ProofActionV>,
    slots: Seq<Option<PlayerProofV<S::V>>>,
    state: ProofStateV<S::V>,
) -> bool {
    forall|j: int|
        0 <= j < 3 ==> ((#[trigger] slots[j]) matches Some(p) ==> {
            let message = ps_ser::<S>(p.state) + flat_ser(actions.subrange(p.start, p.end));
            match recover_of(message, p.signature) {
                Some(rec) => if j == 0 {
                    rec == root_author
                } else {
                    ps_player_of::<S>(state, rec) == Some((j - 1) as Player)
                },
                None => false,
            }
        })
}

/// Whether every filled slot's checkpoint state fits a length frame.
pub open spec fn slot_lens_ok<S: State>(slots: Seq<Option<PlayerProofV<S::V>>>) -> bool {
    forall|j: int|
        0 <= j < 3 ==> ((#[trigger] slots[j]) matches Some(p) ==> ps_ser::<S>(p.state).len()
            <= u32::MAX)
}

/// The proof a buffer decodes to against a given root, if any: the base
/// checkpoint (which must belong to the root's match), the framed log, and
/// the slot headers, re-validated as the specification of deserialization
/// demands.
pub open spec fn proof_de<S: State>(root: RootProofV<S::V>, data: Seq<u8>) -> Option<
    ProofV<S::V>,
> {
    if data.len() < 4 {
        None
    } else {
        let size = codec::le_u32(data.subrange(0, 4));
        if 4 + size > data.len() {
            None
        } else {
            match ps_de::<S>(data.subrange(4, 4 + size)) {
                Some(base) => if base.id == root.state.id && base.players == root.state.players
                    && 4 + size + 4 <= data.len() {
                    let count = codec::le_u32(data.subrange(4 + size, 8 + size));
                    match actions_de::<S::Action>(data, 8 + size, count) {
                        Some((actions, end)) => match slots_de(data, end, 3) {
                            Some((raws, end2)) => if end2 == data.len() && slot_shape_ok(
                                raws,
                                actions.len() as int,
                            ) && reach_ok(actions, raws) && ps_replay::<S>(base, actions)
                                is Some && slot_states_ok::<S>(base, actions, raws) {
                                let state = ps_replay::<S>(base, actions).unwrap();
                                let slots = mk_slots::<S>(base, actions, raws);
                                if slot_sigs_ok::<S>(root.author, actions, slots, state)
                                    && slot_lens_ok::<S>(slots) {
                                    Some(
                                        ProofV {
                                            root,
                                            actions,
                                            proofs: slots,
                                            hash: keccak_of(data),
                                            state,
                                        },
                                    )
                                } else {
                                    None
                                }
                            } else {
                                None
                            },
                            None => None,
                        },
                        None => None,
                    }
                } else {
                    None
                },
                None => None,
            }
        }
    }
}

/// The freshest slot's index lies inside the slot table.
pub proof fn lemma_fresh_ix_bounds<SV>(proofs: Seq<Option<PlayerProofV<SV>>>)
    requires
        proofs.len() >= 1,
    ensures
        0 <= fresh_ix(proofs) < proofs.len(),
    decreases proofs.len(),
{
    if proofs.len() > 1 {
        lemma_fresh_ix_bounds(proofs.drop_last());
    }
}

/// The freshest slot is a filled one whenever any slot is filled, and no
/// filled slot's range ends later.
pub proof fn lemma_fresh_ix_some<SV>(proofs: Seq<Option<PlayerProofV<SV>>>)
    requires
        exists|i: int| 0 <= i < proofs.len() && (#[trigger] proofs[i]) is Some,
    ensures
        0 <= fresh_ix(proofs) < proofs.len(),
        proofs[fresh_ix(proofs)] is Some,
        forall|i: int|
            0 <= i < proofs.len() ==> ((#[trigger] proofs[i]) matches Some(p) ==> p.end
                <= proofs[fresh_ix(proofs)].unwrap().end),
    decreases proofs.len(),
{
    lemma_fresh_ix_bounds(proofs);

    if proofs.len() <= 1 {
    } else {
        let last = proofs.len() - 1;
        let prefix = proofs.drop_last();

        lemma_fresh_ix_bounds(prefix);
        assert(prefix[fresh_ix(prefix)] == proofs[fresh_ix(prefix)]);

        if exists|i: int| 0 <= i < prefix.len() && (#[trigger] prefix[i]) is Some {
            lemma_fresh_ix_some(prefix);

            assert forall|i: int| 0 <= i < proofs.len() implies ((#[trigger] proofs[i])
                matches Some(p) ==> p.end <= proofs[fresh_ix(proofs)].unwrap().end) by {
                if i < last {
                    assert(prefix[i] == proofs[i]);
                }
            }
        } else {
            assert forall|i: int| 0 <= i < prefix.len() implies !((#[trigger] prefix[i])
                is Some) by {
                assert(prefix[i] == proofs[i]);
            }
            if proofs[last] is Some {
                assert(fresh_ix(proofs) == last);
                assert forall|i: int| 0 <= i < proofs.len() implies ((#[trigger] proofs[i])
                    matches Some(p) ==> p.end <= proofs[fresh_ix(proofs)].unwrap().end) by {
                    if i < last {
                        assert(prefix[i] == proofs[i]);
                    }
                }
            } else {
                let w = choose|i: int| 0 <= i < proofs.len() && (#[trigger] proofs[i]) is Some;
                assert(prefix[w] == proofs[w]);
            }
        }
    }
}

/// The earliest slot: if some filled slot starts at the head, the earliest
/// index is the first such slot.
pub proof fn lemma_earliest_ix<SV>(proofs: Seq<Option<PlayerProofV<SV>>>)
    requires
        exists|i: int|
            0 <= i < proofs.len() && ((#[trigger] proofs[i]) matches Some(p) && p.start == 0),
    ensures
        0 <= earliest_ix(proofs) < proofs.len(),
        proofs[earliest_ix(proofs)] matches Some(p) && p.start == 0,
    decreases proofs.len(),
{
    if proofs[0] matches Some(p) && p.start == 0 {
    } else {
        let w = choose|i: int|
            0 <= i < proofs.len() && ((#[trigger] proofs[i]) matches Some(p) && p.start == 0);
        assert(proofs.skip(1)[w - 1] == proofs[w]);
        lemma_earliest_ix(proofs.skip(1));
        assert(proofs[1 + earliest_ix(proofs.skip(1))] == proofs.skip(1)[earliest_ix(
            proofs.skip(1),
        )]);
    }
}

/// The hash-addressed rolling proof of a match.
pub struct Proof<S: State> {
    pub(crate) root: RootProof<S>,
    pub(crate) actions: Vec<ProofAction<S::Action>>,
    pub(crate) proofs: Vec<Option<PlayerProof<S>>>,
    pub(crate) hash: Vec<u8>,
    pub(crate) state: ProofState<S>,
}

impl<S: State> View for Proof<S> {
    type V = ProofV<S::V>;

    open(crate) spec fn view(&self) -> ProofV<S::V> {
        ProofV {
            root: self.root@,
            actions: pa_views(self.actions@),
            proofs: slot_views(self.proofs@),
            hash: self.hash@,
            state: self.state@,
        }
    }
}

impl<S: State> Proof<S> {
    /// Whether the proof is well formed.
    pub open(crate) spec fn wf(&self) -> bool {
        &&& self.root.wf()
        &&& pa_all_wf(self.actions@)
        &&& forall|i: int|
            0 <= i < self.proofs@.len() ==> ((#[trigger] self.proofs@[i]) matches Some(p)
                ==> p.state.wf())
        &&& self.state.wf()
        &&& proof_wf::<S>(self@)
    }

    /// A well-formed proof has a well-formed model.
    pub proof fn lemma_wf(&self)
        requires
            self.wf(),
        ensures
            proof_wf::<S>(self@),
    {
    }

    /// The hash of the proof's encoding.
    pub fn hash(&self) -> (r: &Vec<u8>)
        ensures
            r@ == self@.hash,
    {
        &self.hash
    }

    /// The live replayed state.
    pub fn state(&self) -> (r: &ProofState<S>)
        ensures
            r@ == self@.state,
            self.wf() ==> r.wf(),
    {
        &self.state
    }

    /// Constructs the proof of a freshly opened match: the log is the root
    /// proof's tail, the owner's slot covers all of it, and the live state
    /// is the root proof's latest state.
    pub fn new(root: RootProof<S>) -> (r: Proof<S>)
        requires
            root.wf(),
        ensures
            r.wf(),
            r@.root == root@,
            r@.actions == root@.actions,
            r@.state == root@.latest,
            r@.proofs[0] matches Some(p) && p.start == 0 && p.end == root@.actions.len()
                && p.state == root@.state && p.signature == root@.signature,
            r@.proofs[1] is None && r@.proofs[2] is None,
            r@.hash == keccak_of(proof_ser::<S>(r@)),
            proof_duality::<S>(r@),
    {
        let actions = crate::root_proof::dup_actions(&root.actions, 0);

        proof {
            assert(pa_views(actions@) =~= pa_views(root.actions@));
        }

        let base = root.state.dup();
        let signature = codec::dup_bytes(&root.signature);
        let latest = root.compute_state();

        let slot = PlayerProof { state: base, start: 0, end: actions.len(), signature };

        let mut proofs: Vec<Option<PlayerProof<S>>> = Vec::new();
        proofs.push(Some(slot));
        proofs.push(None);
        proofs.push(None);

        let mut p = Proof { root, actions, proofs, hash: Vec::new(), state: latest };

        proof {
            p.root.lemma_wf();
            p.state.lemma_wf();
            assert(p@.proofs =~= seq![
                Some(
                    PlayerProofV::<S::V> {
                        state: p.root@.state,
                        start: 0,
                        end: p.root@.actions.len() as int,
                        signature: p.root@.signature,
                    },
                ),
                None,
                None,
            ]);
            assert(p@.proofs.drop_last() =~= p@.proofs.subrange(0, 2));
            assert(p@.proofs.subrange(0, 2).drop_last() =~= p@.proofs.subrange(0, 1));
            assert(p@.proofs.subrange(0, 1)[0] == p@.proofs[0]);
            assert(p@.proofs.subrange(0, 2)[0] == p@.proofs[0]);
            assert(p@.proofs.subrange(0, 2)[1] == p@.proofs[1]);
            assert(fresh_ix(p@.proofs.subrange(0, 1)) == 0);
            assert(fresh_ix(p@.proofs.subrange(0, 2)) == 0);
            assert(fresh_ix(p@.proofs) == 0);
            assert(p@.actions.skip(0) =~= p@.actions);
        }

        let digest = {
            let bytes = self_serialize(&p);
            crypto::keccak256(bytes.as_slice())
        };

        p.hash = digest;

        proof {
            assert(p@.hash == keccak_of(proof_ser::<S>(p@)));

            assert(earliest_ix(p@.proofs) == 0);

            let base = p@.proofs[0].unwrap().state;
            let n = p@.actions.len() as int;

            assert forall|i: int| 0 <= i <= n implies {
                let w = #[trigger] ps_replay::<S>(base, p@.actions.take(i));
                &&& ((exists|j: int|
                    0 <= j < 3 && ((#[trigger] p@.proofs[j]) matches Some(q) && q.start == i))
                    ==> (w matches Some(x) && ps_serializable::<S>(x)))
                &&& ((exists|j: int|
                    0 <= j < 3 && ((#[trigger] p@.proofs[j]) matches Some(q) && q.start < i
                        <= q.end)) ==> (w matches Some(x) && !ps_serializable::<S>(x)))
            } by {
                if i == 0 {
                    assert(p@.actions.take(0) =~= Seq::<ProofActionV>::empty());
                    assert(ps_replay::<S>(base, p@.actions.take(0)) == Some(base));
                } else {
                    assert(p@.actions =~= p.root@.actions);
                    if exists|j: int|
                        0 <= j < 3 && ((#[trigger] p@.proofs[j]) matches Some(q) && q.start
                            == i) {
                        let j = choose|j: int|
                            0 <= j < 3 && ((#[trigger] p@.proofs[j]) matches Some(q) && q.start
                                == i);
                        assert(false);
                    }
                }
            }
        }

        p
    }

    /// Writes the proof's encoding.
    pub fn serialize(&self) -> (r: Vec<u8>)
        requires
            self.wf(),
        ensures
            r@ == proof_ser::<S>(self@),
    {
        self_serialize(self)
    }

    /// Replaces the proof's log, slots and live state from a buffer,
    /// keeping the root, and re-validating everything the encoding claims:
    /// the base checkpoint belongs to the root's match; the ranges lie
    /// inside the log with one starting at its head; every action lies
    /// under a covering slot; every position where a slot starts replays to
    /// a checkpoint and every strictly covered position off one; and every
    /// slot signature recovers to the owner or to its player.  On an error
    /// the proof is unchanged.
    #[verifier::rlimit(100)]
    #[verifier::spinoff_prover]
    pub fn deserialize(&mut self, data: &[u8]) -> (r: Result<(), Error>)
        requires
            old(self).wf(),
        ensures
            final(self).wf(),
            match r {
                Ok(_) => {
                    &&& final(self)@.root == old(self)@.root
                    &&& proof_de::<S>(old(self)@.root, data@) == Some(final(self)@)
                    &&& proof_ser::<S>(final(self)@) == data@
                    &&& final(self)@.hash == keccak_of(data@)
                    &&& proof_duality::<S>(final(self)@)
                },
                Err(e) => final(self)@ == old(self)@ && e == Error::Hard,
            },
    {
        let ghost rootv = self@.root;

        let dlen: usize = data.len();

        let (base, actions, raws, size, end) = match parse_proof_buffer::<S>(
            &self.root.state,
            data,
        ) {
            Ok(p) => p,
            Err(_) => {
                return Err(Error::Hard);
            },
        };

        let ghost views = pa_views(actions@);
        let ghost rawv = raw_views(raws@);
        let ghost basev = base@;

        let n = actions.len();

        let (live, built) = match replay_validate::<S>(&base, &actions, &raws) {
            Ok(p) => p,
            Err(_) => {
                return Err(Error::Hard);
            },
        };

        match verify_slots::<S>(&self.root.author, &actions, &built, &live) {
            Ok(_) => {},
            Err(_) => {
                return Err(Error::Hard);
            },
        }

        let digest = crypto::keccak256(data);

        self.actions = actions;
        self.proofs = built;
        self.state = live;
        self.hash = digest;

        proof {
            codec::lemma_u32_le(size as u32);

            assert(slot_views(self.proofs@) == mk_slots::<S>(basev, views, rawv));

            let v = proof_de::<S>(rootv, data@).unwrap();
            assert(self@ =~= v);

            assert(exists|q: int|
                0 <= q < 3 && ((#[trigger] self@.proofs[q]) matches Some(p) && p.start == 0))
                by {
                let q = choose|q: int|
                    0 <= q < 3 && ((#[trigger] rawv[q]) matches Some(rr) && rr.0 == 0);
                assert(views.take(0) =~= Seq::<ProofActionV>::empty());
                assert(self@.proofs[q] matches Some(p) && p.start == 0);
            }

            lemma_earliest_ix(self@.proofs);

            self.root.lemma_wf();
            self.state.lemma_wf();

            assert forall|q: int| 0 <= q < 3 implies ((#[trigger] self@.proofs[q]) matches Some(
                p,
            ) ==> ps_replay::<S>(p.state, self@.actions.skip(p.start)) == Some(self@.state)) by {
                match self@.proofs[q] {
                    Some(p) => {
                        assert(views.take(p.start) + views.skip(p.start) =~= views);
                        lemma_ps_replay_concat::<S>(basev, views.take(p.start), views.skip(
                            p.start,
                        ));
                    },
                    None => {},
                }
            }

            assert(self@.proofs[earliest_ix(self@.proofs)].unwrap().state == basev) by {
                assert(views.take(0) =~= Seq::<ProofActionV>::empty());
            }

            assert forall|j: int| 0 <= j < 3 implies (match rawv[j] {
                Some(rr) => (#[trigger] self@.proofs[j]) matches Some(p) && p.start == rr.0
                    && p.end == rr.1 && p.signature == rr.2,
                None => self@.proofs[j] is None,
            }) by {
                assert(self@.proofs[j] == mk_slots::<S>(basev, views, rawv)[j]);
            }
            lemma_slots_ser_raw::<S>(self@.proofs, rawv);

            assert(ps_ser::<S>(basev) == data@.subrange(4, 4 + size));
            assert(data@ =~= data@.subrange(0, 4) + data@.subrange(4, 4 + size) + data@.subrange(
                4 + size,
                8 + size,
            ) + data@.subrange(8 + size, end as int) + data@.subrange(end as int, dlen as int));
            assert(proof_ser::<S>(self@) =~= data@);

            lemma_duality_from_raws::<S>(self@, basev, rawv);
        }

        Ok(())
    }

    /// Verifies and applies a diff to the proof: the consensus rule.
    ///
    /// Returns the events the new actions emitted.  On an error the proof
    /// is unchanged: a hard error marks a malformed or misaddressed diff, a
    /// slashable error a protocol violation by its submitter.
    #[verifier::rlimit(100)]
    pub fn apply(&mut self, diff: &Diff<S::Action>) -> (r: Result<Vec<S::Event>, Error>)
        requires
            old(self).wf(),
            diff.wf(),
        ensures
            final(self).wf(),
            match r {
                Ok(_) => final(self).wf() && proof_apply::<S>(old(self)@, diff@) == Ok::<
                    ProofV<S::V>,
                    Error,
                >(final(self)@),
                Err(e) => final(self)@ == old(self)@ && proof_apply::<S>(old(self)@, diff@)
                    == Err::<ProofV<S::V>, Error>(e),
            },
    {
        proof {
            reveal(proof_apply);
        }

        let ghost v0 = self@;
        let ghost dv = diff@;

        if !codec::bytes_eq(diff.proof_hash().as_slice(), self.hash.as_slice()) {
            return Err(Error::Hard);
        }

        let n0 = self.actions.len();
        let dacts = diff.actions();
        let dlen = dacts.len();

        if dlen > u32::MAX as usize - n0 {
            return Err(Error::Hard);
        }

        proof {
            assert(dv.author.len() == 20);
        }

        let owner = codec::bytes_eq(diff.author().as_slice(), self.root.author().as_slice());

        let player: Option<Player> = if owner {
            None
        } else {
            match self.state.player(diff.author()) {
                Some(p) => Some(p),
                None => {
                    return Err(Error::Slashable);
                },
            }
        };

        proof {
            let w = choose|i: int|
                0 <= i < 3 && ((#[trigger] v0.proofs[i]) matches Some(p) && p.start == 0);
            assert(v0.proofs[w] is Some);
            lemma_fresh_ix_some(v0.proofs);
        }

        let f = fresh_slot(&self.proofs);

        let (mut ck, mut start) = match &self.proofs[f] {
            Some(q) => (q.state.dup(), q.start),
            None => {
                proof {
                    assert(false);
                }
                (self.root.state.dup(), 0)
            },
        };

        let latest0_copy = self.compute_state();
        let mut latest = latest0_copy;

        let ghost latest0 = v0.state;
        let ghost ck0 = ck@;
        let ghost start0 = start as int;
        let ghost dviews = dv.actions;

        let events: Vec<S::Event> = match walk_exec(
            &mut latest,
            &mut ck,
            &mut start,
            n0,
            dacts,
            player,
        ) {
            Ok(e) => e,
            Err(e) => {
                return Err(e);
            },
        };

        proof {
            lemma_diff_walk::<S>(latest0, ck0, start0, v0.actions, dviews, player);
        }

        let r = self.finish(diff, player, latest, ck, start);

        match r {
            Ok(()) => Ok(events),
            Err(e) => Err(e),
        }
    }


    /// Produces a diff over the given actions, signed by the signer.
    ///
    /// All actions must carry one submitter; the actions are walked through
    /// the live state exactly as the consumer will replay them, and the
    /// checkpoint signature covers the state and suffix the consumer will
    /// reconstruct.  A signer who is not the owner must resolve to the
    /// submitting player.
    #[verifier::rlimit(100)]
    pub fn diff(&self, actions: Vec<ProofAction<S::Action>>, signer: &Signer) -> (r: Result<
        Diff<S::Action>,
        Error,
    >)
        requires
            self.wf(),
            pa_all_wf(actions@),
            signer.wf(),
        ensures
            match r {
                Ok(d) => d.wf() && proof_diff::<S>(self@, pa_views(actions@), signer.addr())
                    == Ok::<DiffV, Error>(d@) && d@.proof == self@.hash && d@.actions == pa_views(
                    actions@,
                ) && d@.author == signer.addr(),
                Err(e) => proof_diff::<S>(self@, pa_views(actions@), signer.addr()) == Err::<
                    DiffV,
                    Error,
                >(e),
            },
    {
        proof {
            reveal(proof_diff);
        }

        let ghost v0 = self@;
        let ghost dviews = pa_views(actions@);
        let ghost combined = v0.actions + dviews;

        let n0 = self.actions.len();
        let dlen = actions.len();

        if dlen > u32::MAX as usize - n0 {
            return Err(Error::Hard);
        }

        let player: Option<Player> = if dlen > 0 {
            actions[0].player
        } else {
            None
        };

        proof {
            let w = choose|i: int|
                0 <= i < 3 && ((#[trigger] v0.proofs[i]) matches Some(p) && p.start == 0);
            assert(v0.proofs[w] is Some);
            lemma_fresh_ix_some(v0.proofs);
        }

        let f = fresh_slot(&self.proofs);

        let (mut ck, mut start) = match &self.proofs[f] {
            Some(q) => (q.state.dup(), q.start),
            None => {
                proof {
                    assert(false);
                }
                (self.root.state.dup(), 0)
            },
        };

        let mut latest = self.compute_state();

        let ghost latest0 = v0.state;
        let ghost ck0 = ck@;
        let ghost start0 = start as int;

        match walk_exec(&mut latest, &mut ck, &mut start, n0, &actions, player) {
            Ok(_) => {},
            Err(_) => {
                return Err(Error::Hard);
            },
        };

        proof {
            lemma_diff_walk::<S>(latest0, ck0, start0, v0.actions, dviews, player);
        }

        let state_bytes = match ck.serialize() {
            Some(b) => b,
            None => {
                proof {
                    assert(false);
                }
                Vec::new()
            },
        };

        if state_bytes.len() > u32::MAX as usize {
            return Err(Error::Hard);
        }

        let mut message = state_bytes;

        if start <= n0 {
            write_actions_flat(&mut message, &self.actions, start);
            write_actions_flat(&mut message, &actions, 0);

            proof {
                assert(combined.skip(start as int) =~= v0.actions.skip(start as int) + dviews);
                crate::action::lemma_flat_concat(v0.actions.skip(start as int), dviews);
                assert(v0.actions.subrange(start as int, n0 as int) =~= v0.actions.skip(
                    start as int,
                ));
                assert(dviews.subrange(0, dlen as int) =~= dviews);
                assert(message@ =~= ps_ser::<S>(ck@) + flat_ser(combined.skip(start as int)));
            }
        } else {
            write_actions_flat(&mut message, &actions, start - n0);

            proof {
                assert(combined.skip(start as int) =~= dviews.skip(start - n0));
                assert(dviews.subrange(start - n0, dlen as int) =~= dviews.skip(start - n0));
                assert(message@ =~= ps_ser::<S>(ck@) + flat_ser(combined.skip(start as int)));
            }
        }

        let proof_signature = signer.sign(message.as_slice());

        if !codec::bytes_eq(signer.address().as_slice(), self.root.author().as_slice()) {
            let resolved = match latest.player(signer.address()) {
                Some(q) => q,
                None => {
                    return Err(Error::Hard);
                },
            };

            if dlen > 0 {
                let pm = match (actions[0].player, Some(resolved)) {
                    (None, None) => true,
                    (Some(x), Some(y)) => x == y,
                    _ => false,
                };

                if !pm {
                    return Err(Error::Hard);
                }
            }
        }

        let d = Diff::new(
            codec::dup_bytes(&self.hash),
            actions,
            proof_signature,
            signer,
        );

        proof {
            let expect = proof_diff::<S>(v0, dviews, signer.addr()).unwrap();
            assert(d@ =~= expect);
        }

        Ok(d)
    }

    /// The second half of `apply`: verifies the checkpoint signature and
    /// integrates the walked checkpoint into the slot table.
    fn finish(
        &mut self,
        diff: &Diff<S::Action>,
        player: Option<Player>,
        latest: ProofState<S>,
        ck: ProofState<S>,
        start: usize,
    ) -> (r: Result<(), Error>)
        requires
            old(self).wf(),
            diff.wf(),
            latest.wf(),
            ck.wf(),
            ps_serializable::<S>(ck@),
            start <= old(self)@.actions.len() + diff@.actions.len(),
            old(self)@.actions.len() + diff@.actions.len() <= u32::MAX,
            ps_replay::<S>(ck@, (old(self)@.actions + diff@.actions).skip(start as int)) == Some(
                latest@,
            ),
            ps_replay::<S>(old(self)@.state, diff@.actions) == Some(latest@),
            player matches Some(p) ==> p < 2,
            player is None ==> diff@.author == old(self)@.root.author,
        ensures
            final(self).wf(),
            match r {
                Ok(_) => final(self).wf() && proof_finish::<S>(
                    old(self)@,
                    diff@,
                    player,
                    latest@,
                    ck@,
                    start as int,
                ) == Ok::<ProofV<S::V>, Error>(final(self)@),
                Err(e) => final(self)@ == old(self)@ && proof_finish::<S>(
                    old(self)@,
                    diff@,
                    player,
                    latest@,
                    ck@,
                    start as int,
                ) == Err::<ProofV<S::V>, Error>(e),
            },
    {
        proof {
            reveal(proof_finish);
        }

        let ghost v0 = self@;
        let ghost dv = diff@;
        let ghost dviews = dv.actions;
        let ghost combined = v0.actions + dviews;

        let n0 = self.actions.len();
        let dacts = diff.actions();
        let dlen = dacts.len();

        let mut latest = latest;
        let mut ck = ck;

        let state_bytes = match ck.serialize() {
            Some(b) => b,
            None => {
                proof {
                    assert(false);
                }
                Vec::new()
            },
        };

        if state_bytes.len() > u32::MAX as usize {
            return Err(Error::Hard);
        }

        let ghost combined = v0.actions + dviews;

        let mut message = state_bytes;

        if start <= n0 {
            write_actions_flat(&mut message, &self.actions, start);
            write_actions_flat(&mut message, dacts, 0);

            proof {
                assert(combined.skip(start as int) =~= v0.actions.skip(start as int) + dviews);
                crate::action::lemma_flat_concat(v0.actions.skip(start as int), dviews);
                assert(v0.actions.subrange(start as int, n0 as int) =~= v0.actions.skip(
                    start as int,
                ));
                assert(dviews.subrange(0, dlen as int) =~= dviews);
                assert(message@ =~= ps_ser::<S>(ck@) + flat_ser(combined.skip(start as int)));
            }
        } else {
            write_actions_flat(&mut message, dacts, start - n0);

            proof {
                assert(combined.skip(start as int) =~= dviews.skip(start - n0));
                assert(dviews.subrange(start - n0, dlen as int) =~= dviews.skip(start - n0));
                assert(message@ =~= ps_ser::<S>(ck@) + flat_ser(combined.skip(start as int)));
            }
        }

        let signer = match crypto::recover(message.as_slice(), diff.proof_signature().as_slice()) {
            Ok(s) => s,
            Err(_) => {
                return Err(Error::Hard);
            },
        };

        match player {
            None => self.finish_owner(diff, latest, ck, start, signer),
            Some(p) => self.finish_player(diff, latest, ck, start, signer, p),
        }
    }


    /// Integrates an owner diff.
    #[verifier::rlimit(100)]
    #[verifier::spinoff_prover]
    fn finish_owner(
        &mut self,
        diff: &Diff<S::Action>,
        latest: ProofState<S>,
        ck: ProofState<S>,
        start: usize,
        signer: Vec<u8>,
    ) -> (r: Result<(), Error>)
        requires
            old(self).wf(),
            diff.wf(),
            latest.wf(),
            ck.wf(),
            ps_serializable::<S>(ck@),
            start <= old(self)@.actions.len() + diff@.actions.len(),
            old(self)@.actions.len() + diff@.actions.len() <= u32::MAX,
            ps_ser::<S>(ck@).len() <= u32::MAX,
            ps_replay::<S>(ck@, (old(self)@.actions + diff@.actions).skip(start as int)) == Some(
                latest@,
            ),
        ensures
            final(self).wf(),
            match r {
                Ok(_) => final(self).wf() && proof_owner::<S>(
                    old(self)@,
                    diff@,
                    latest@,
                    ck@,
                    start as int,
                    signer@,
                ) == Ok::<ProofV<S::V>, Error>(final(self)@),
                Err(e) => final(self)@ == old(self)@ && proof_owner::<S>(
                    old(self)@,
                    diff@,
                    latest@,
                    ck@,
                    start as int,
                    signer@,
                ) == Err::<ProofV<S::V>, Error>(e),
            },
    {
        proof {
            reveal(proof_owner);
        }

        let ghost v0 = self@;
        let ghost dv = diff@;
        let ghost dviews = dv.actions;
        let ghost combined = v0.actions + dviews;
        let ghost ckv = ck@;
        let ghost latestv = latest@;

        let n0 = self.actions.len();
        let dacts = diff.actions();
        let dlen = dacts.len();

                if !codec::bytes_eq(signer.as_slice(), self.root.author().as_slice()) {
                    return Err(Error::Slashable);
                }

                let mut acts: Vec<ProofAction<S::Action>> = if start <= n0 {
                    let mut t = crate::root_proof::dup_actions(&self.actions, start);
                    let mut d2 = crate::root_proof::dup_actions(dacts, 0);
                    t.append(&mut d2);
                    t
                } else {
                    crate::root_proof::dup_actions(dacts, start - n0)
                };

                proof {
                    if start <= n0 {
                        assert(v0.actions.subrange(start as int, n0 as int) =~= v0.actions.skip(
                            start as int,
                        ));
                        assert(dviews.subrange(0, dlen as int) =~= dviews);
                        assert(combined.skip(start as int) =~= v0.actions.skip(start as int)
                            + dviews);
                        assert(pa_views(acts@) =~= combined.skip(start as int));
                    } else {
                        assert(dviews.subrange(start - n0, dlen as int) =~= dviews.skip(
                            start - n0,
                        ));
                        assert(combined.skip(start as int) =~= dviews.skip(start - n0));
                        assert(pa_views(acts@) =~= combined.skip(start as int));
                    }
                }

                let slot = PlayerProof {
                    state: ck,
                    start: 0,
                    end: acts.len(),
                    signature: codec::dup_bytes(diff.proof_signature()),
                };

                let mut proofs2: Vec<Option<PlayerProof<S>>> = Vec::new();
                proofs2.push(Some(slot));
                proofs2.push(None);
                proofs2.push(None);

                proof {
                    let sv = slot_views(proofs2@);
                    assert(sv =~= seq![Some(proofs2@[0].unwrap()@), None, None]);
                    assert(sv[0] matches Some(q) && q.start == 0);
                    assert(pa_views(acts@).skip(0) =~= pa_views(acts@));
                }

                self.install(acts, proofs2, latest);

                proof {
                    let expect = proof_owner::<S>(v0, dv, latestv, ckv, start as int, signer@).unwrap();
                    assert(self@.proofs =~= expect.proofs);
                    assert(self@ =~= expect);
                }

                Ok(())
                }

    /// Integrates a player diff.
    #[verifier::rlimit(100)]
    #[verifier::spinoff_prover]
    fn finish_player(
        &mut self,
        diff: &Diff<S::Action>,
        latest: ProofState<S>,
        ck: ProofState<S>,
        start: usize,
        signer: Vec<u8>,
        p: Player,
    ) -> (r: Result<(), Error>)
        requires
            old(self).wf(),
            diff.wf(),
            latest.wf(),
            ck.wf(),
            ps_serializable::<S>(ck@),
            start <= old(self)@.actions.len() + diff@.actions.len(),
            old(self)@.actions.len() + diff@.actions.len() <= u32::MAX,
            ps_ser::<S>(ck@).len() <= u32::MAX,
            ps_replay::<S>(ck@, (old(self)@.actions + diff@.actions).skip(start as int)) == Some(
                latest@,
            ),
            ps_replay::<S>(old(self)@.state, diff@.actions) == Some(latest@),
            signer@.len() == 20,
            p < 2,
        ensures
            final(self).wf(),
            match r {
                Ok(_) => final(self).wf() && proof_player::<S>(
                    old(self)@,
                    diff@,
                    latest@,
                    ck@,
                    start as int,
                    signer@,
                    p,
                ) == Ok::<ProofV<S::V>, Error>(final(self)@),
                Err(e) => final(self)@ == old(self)@ && proof_player::<S>(
                    old(self)@,
                    diff@,
                    latest@,
                    ck@,
                    start as int,
                    signer@,
                    p,
                ) == Err::<ProofV<S::V>, Error>(e),
            },
    {
        proof {
            reveal(proof_player);
        }

        let ghost v0 = self@;
        let ghost dv = diff@;
        let ghost dviews = dv.actions;
        let ghost combined = v0.actions + dviews;
        let ghost ckv = ck@;
        let ghost latestv = latest@;

        let n0 = self.actions.len();
        let dacts = diff.actions();
        let dlen = dacts.len();

                if !self.player_matches(&signer, &latest, p) {
                    return Err(Error::Slashable);
                }

                let other: usize = 2 - p as usize;

                proof {
                    assert(v0.proofs[other as int] matches Some(q) ==> slot_wf::<S>(
                        q,
                        n0 as int,
                    ));
                    assert(v0.proofs[0] matches Some(q) ==> slot_wf::<S>(q, n0 as int));
                    assert(v0.proofs[0] is None ==> v0.proofs[1] is Some && v0.proofs[2]
                        is Some);
                }

                let consensus = match &self.proofs[other] {
                    Some(_) => true,
                    None => false,
                };

                let offset: usize = if consensus {
                    match &self.proofs[other] {
                        Some(q) => if start <= q.start {
                            start
                        } else {
                            q.start
                        },
                        None => {
                            proof {
                                assert(false);
                            }
                            0
                        },
                    }
                } else {
                    match &self.proofs[0] {
                        Some(q) => if start <= q.start {
                            start
                        } else {
                            q.start
                        },
                        None => {
                            proof {
                                assert(false);
                            }
                            0
                        },
                    }
                };

                proof {
                    assert(offset <= n0);
                }

                let mut acts = crate::root_proof::dup_actions(&self.actions, offset);
                let mut d2 = crate::root_proof::dup_actions(dacts, 0);
                acts.append(&mut d2);

                proof {
                    assert(v0.actions.subrange(offset as int, n0 as int) =~= v0.actions.skip(
                        offset as int,
                    ));
                    assert(dviews.subrange(0, dlen as int) =~= dviews);
                    assert(combined.skip(offset as int) =~= v0.actions.skip(offset as int)
                        + dviews);
                    assert(pa_views(acts@) =~= combined.skip(offset as int));
                }

                let newslot = PlayerProof {
                    state: ck,
                    start: start - offset,
                    end: n0 + dlen - offset,
                    signature: codec::dup_bytes(diff.proof_signature()),
                };

                let mut proofs2: Vec<Option<PlayerProof<S>>> = Vec::new();

                if consensus {
                    proofs2.push(None);
                } else {
                    proofs2.push(dup_shifted(&self.proofs[0], offset));
                }

                if p == 0 {
                    proofs2.push(Some(newslot));
                    proofs2.push(dup_shifted(&self.proofs[2], offset));
                } else {
                    proofs2.push(dup_shifted(&self.proofs[1], offset));
                    proofs2.push(Some(newslot));
                }

                proof {
                    let newslot_v = PlayerProofV::<S::V> {
                        state: ck@,
                        start: start - offset,
                        end: combined.len() - offset,
                        signature: dv.proof_signature,
                    };
                    let sv = slot_views(proofs2@);
                    assert(sv =~= shifted_slots(v0.proofs, p, newslot_v, consensus, offset as int));

                    lemma_player_slots::<S>(
                        v0,
                        dv,
                        latest@,
                        ck@,
                        start as int,
                        p,
                        consensus,
                        offset as int,
                    );
                }

                self.install(acts, proofs2, latest);

                proof {
                    reveal(proof_player);
                    let expect = proof_player::<S>(v0, dv, latestv, ckv, start as int, signer@, p).unwrap();
                    assert(self@.actions =~= expect.actions);
                    assert(self@.proofs =~= expect.proofs);
                    assert(self@ =~= expect);
                }

                Ok(())
                }

    /// Installs a rebuilt log, slot table and live state, and restamps the
    /// proof's hash.
    fn install(
        &mut self,
        acts: Vec<ProofAction<S::Action>>,
        proofs2: Vec<Option<PlayerProof<S>>>,
        latest: ProofState<S>,
    )
        requires
            old(self).root.wf(),
            pa_all_wf(acts@),
            acts@.len() <= u32::MAX,
            proofs2@.len() == 3,
            forall|i: int|
                0 <= i < 3 ==> ((#[trigger] proofs2@[i]) matches Some(q) ==> q.state.wf()),
            forall|i: int|
                0 <= i < 3 ==> ((#[trigger] slot_views(proofs2@)[i]) matches Some(q)
                    ==> slot_wf::<S>(q, acts@.len() as int) && ps_replay::<S>(
                    q.state,
                    pa_views(acts@).skip(q.start),
                ) == Some(latest@)),
            exists|i: int|
                0 <= i < 3 && ((#[trigger] slot_views(proofs2@)[i]) matches Some(q) && q.start
                    == 0),
            (slot_views(proofs2@)[0] is None ==> slot_views(proofs2@)[1] is Some && slot_views(
                proofs2@,
            )[2] is Some),
            latest.wf(),
        ensures
            final(self).wf(),
            final(self)@ == ({
                let v2 = ProofV {
                    root: old(self)@.root,
                    actions: pa_views(acts@),
                    proofs: slot_views(proofs2@),
                    hash: old(self)@.hash,
                    state: latest@,
                };
                ProofV { hash: keccak_of(proof_ser::<S>(v2)), ..v2 }
            }),
    {
        self.actions = acts;
        self.proofs = proofs2;
        self.state = latest;

        let bytes = self_serialize(&*self);

        self.hash = crypto::keccak256(bytes.as_slice());
    }

    /// Whether the recovered signer resolves to the given player in the
    /// post-apply state.
    fn player_matches(&self, signer: &Vec<u8>, latest: &ProofState<S>, p: Player) -> (r: bool)
        requires
            latest.wf(),
            signer@.len() == 20,
        ensures
            r == (ps_player_of::<S>(latest@, signer@) == Some(p)),
    {
        match latest.player(signer) {
            Some(q) => q == p,
            None => false,
        }
    }

    /// A fresh copy of the live state, replayed from the freshest slot's
    /// checkpoint through the tail of the log.
    pub fn compute_state(&self) -> (r: ProofState<S>)
        requires
            self.wf(),
        ensures
            r.wf(),
            r@ == self@.state,
    {
        proof {
            lemma_fresh_ix_some(self@.proofs);
        }

        let f = fresh_slot(&self.proofs);

        let (start, mut state) = match &self.proofs[f] {
            Some(p) => (p.start, p.state.dup()),
            None => {
                proof {
                    assert(false);
                }
                (0, self.root.state.dup())
            },
        };

        let ghost views = pa_views(self.actions@);
        let ghost base = state@;

        let n = self.actions.len();
        let mut i: usize = start;

        proof {
            assert(views.skip(start as int).take(0) =~= Seq::<ProofActionV>::empty());
        }

        #[verifier::loop_isolation(false)]
        while i < n
            invariant
                start <= i <= n,
                state.wf(),
                ps_replay::<S>(base, views.skip(start as int).take(i - start)) == Some(state@),
            decreases n - i,
        {
            let applied = state.apply(&self.actions[i]);

            proof {
                let tail = views.skip(start as int);
                assert(tail.take(i - start + 1) =~= tail.take(i - start).push(
                    views[i as int],
                ));
                lemma_ps_replay_snoc::<S>(base, tail.take(i - start), views[i as int]);
            }

            match applied {
                Ok(_) => {},
                Err(_) => {
                    proof {
                        let tail = views.skip(start as int);
                        assert(tail.take(i - start + 1) =~= tail.take(i + 1 - start));
                        lemma_ps_replay_prefix::<S>(base, tail, i + 1 - start);
                        assert(false);
                    }
                },
            }

            i = i + 1;
        }

        proof {
            assert(views.skip(start as int).take(n - start) =~= views.skip(start as int));
        }

        state
    }
}

/// The smaller of two positions.
pub open spec fn min2(a: int, b: int) -> int {
    if a <= b {
        a
    } else {
        b
    }
}

/// Walks a diff's actions through the live state, advancing the checkpoint
/// whenever the state re-enters the serializable region.
///
/// `pos` is the log position one past the previously applied action.  Every
/// action must be attributed to the submitting party; a mismatch is
/// slashable, a rejected action is hard.
pub open spec fn diff_walk<S: State>(
    latest: ProofStateV<S::V>,
    ck: ProofStateV<S::V>,
    start: int,
    pos: int,
    actions: Seq<ProofActionV>,
    player: Option<Player>,
) -> Result<(ProofStateV<S::V>, ProofStateV<S::V>, int), Error>
    decreases actions.len(),
{
    if actions.len() == 0 {
        Ok((latest, ck, start))
    } else if actions[0].player != player {
        Err(Error::Slashable)
    } else {
        match ps_apply::<S>(latest, actions[0]) {
            None => Err(ps_class::<S>(latest, actions[0])),
            Some(l2) => if ps_serializable::<S>(l2) {
                diff_walk::<S>(l2, l2, pos + 1, pos + 1, actions.skip(1), player)
            } else {
                diff_walk::<S>(l2, ck, start, pos + 1, actions.skip(1), player)
            },
        }
    }
}

/// What a successful walk guarantees: the final checkpoint replays through
/// the retained suffix to the final live state, and the diff's actions
/// replay from the entry state to the same.
pub proof fn lemma_diff_walk<S: State>(
    latest0: ProofStateV<S::V>,
    ck0: ProofStateV<S::V>,
    start0: int,
    all: Seq<ProofActionV>,
    dacts: Seq<ProofActionV>,
    player: Option<Player>,
)
    requires
        0 <= start0 <= all.len(),
        ps_replay::<S>(ck0, all.skip(start0)) == Some(latest0),
        ps_serializable::<S>(ck0),
    ensures
        diff_walk::<S>(latest0, ck0, start0, all.len() as int, dacts, player) matches Ok(res)
            ==> {
            &&& ps_replay::<S>(res.1, (all + dacts).skip(res.2)) == Some(res.0)
            &&& ps_replay::<S>(latest0, dacts) == Some(res.0)
            &&& ps_serializable::<S>(res.1)
            &&& 0 <= res.2 <= all.len() + dacts.len()
        },
    decreases dacts.len(),
{
    if dacts.len() == 0 {
        assert((all + dacts) =~= all);
    } else if dacts[0].player == player && ps_apply::<S>(latest0, dacts[0]) is Some {
        let a0 = dacts[0];
        let l2 = ps_apply::<S>(latest0, a0).unwrap();
        let all2 = all.push(a0);

        assert(all2.skip(start0) =~= all.skip(start0).push(a0));
        lemma_ps_replay_snoc::<S>(ck0, all.skip(start0), a0);
        assert(ps_replay::<S>(ck0, all2.skip(start0)) == Some(l2));

        assert(all2 + dacts.skip(1) =~= all + dacts);

        if ps_serializable::<S>(l2) {
            assert(all2.skip(all2.len() as int) =~= Seq::<ProofActionV>::empty());
            lemma_diff_walk::<S>(l2, l2, all2.len() as int, all2, dacts.skip(1), player);
        } else {
            lemma_diff_walk::<S>(l2, ck0, start0, all2, dacts.skip(1), player);
        }

        assert(dacts =~= seq![a0] + dacts.skip(1));
        assert(seq![a0].skip(0) =~= seq![a0]);
        match diff_walk::<S>(latest0, ck0, start0, all.len() as int, dacts, player) {
            Ok(res) => {
                assert(ps_replay::<S>(latest0, dacts) == ps_replay::<S>(l2, dacts.skip(1)))
                    by {
                    assert(dacts[0] == a0);
                    assert(dacts.skip(1) =~= dacts.skip(1));
                }
            },
            Err(_) => {},
        }
    }
}

/// What producing a diff yields: the walked checkpoint signature and the
/// signed envelope, or the error on which production is refused.  A
/// producer's misuse is always a hard error.
#[verifier::opaque]
pub open spec fn proof_diff<S: State>(
    v: ProofV<S::V>,
    acts: Seq<ProofActionV>,
    signer_addr: Seq<u8>,
) -> Result<DiffV, Error> {
    if v.actions.len() + acts.len() > u32::MAX {
        Err(Error::Hard)
    } else {
        let player = if acts.len() > 0 {
            acts[0].player
        } else {
            None
        };
        let f = fresh_ix(v.proofs);
        let fp = v.proofs[f].unwrap();
        match diff_walk::<S>(v.state, fp.state, fp.start, v.actions.len() as int, acts, player) {
            Err(_) => Err(Error::Hard),
            Ok(res) => {
                let latest = res.0;
                let ck = res.1;
                let start = res.2;
                if ps_ser::<S>(ck).len() > u32::MAX {
                    Err(Error::Hard)
                } else {
                    let combined = v.actions + acts;
                    let message = ps_ser::<S>(ck) + flat_ser(combined.skip(start));
                    let proof_signature = crypto::signature_of(signer_addr, message);
                    if signer_addr != v.root.author && (ps_player_of::<S>(latest, signer_addr)
                        is None || (acts.len() > 0 && ps_player_of::<S>(latest, signer_addr)
                        != player)) {
                        Err(Error::Hard)
                    } else {
                        let pre = DiffV {
                            proof: v.hash,
                            actions: acts,
                            proof_signature,
                            signature: Seq::empty(),
                            author: Seq::empty(),
                        };
                        Ok(
                            DiffV {
                                signature: crypto::signature_of(
                                    signer_addr,
                                    crate::diff::diff_pre_ser(pre),
                                ),
                                author: signer_addr,
                                ..pre
                            },
                        )
                    }
                }
            },
        }
    }
}

/// Owner consensus collapse: whenever applying a player diff leaves both
/// per-player slots filled, the owner's slot is empty.
pub proof fn lemma_consensus_collapse<S: State>(
    v: ProofV<S::V>,
    d: DiffV,
    latest: ProofStateV<S::V>,
    ck: ProofStateV<S::V>,
    start: int,
    signer: Seq<u8>,
    p: Player,
    v2: ProofV<S::V>,
)
    requires
        p < 2,
        proof_player::<S>(v, d, latest, ck, start, signer, p) == Ok::<ProofV<S::V>, Error>(v2),
        v2.proofs[1] is Some,
        v2.proofs[2] is Some,
    ensures
        v2.proofs[0] is None,
{
    reveal(proof_player);

    let other = 2 - p as int;
    if !(v.proofs[other] is Some) {
        assert(v2.proofs[other] is None);
    }
}

/// Convergence of replicas: applying the same diff to equal proofs yields
/// equal outcomes; and a diff is ever accepted only by the proof whose hash
/// it names.
pub proof fn lemma_apply_deterministic<S: State>(v1: ProofV<S::V>, v2: ProofV<S::V>, d: DiffV)
    requires
        v1 == v2,
    ensures
        proof_apply::<S>(v1, d) == proof_apply::<S>(v2, d),
        proof_apply::<S>(v1, d) is Ok ==> d.proof == v1.hash,
{
    reveal(proof_apply);
}

/// The slot table after a player diff: the player's slot rewritten, the
/// owner's dropped on consensus, and every kept range shifted down.
pub open spec fn shifted_slots<SV>(
    proofs: Seq<Option<PlayerProofV<SV>>>,
    p: Player,
    newslot: PlayerProofV<SV>,
    consensus: bool,
    offset: int,
) -> Seq<Option<PlayerProofV<SV>>> {
    Seq::new(
        3,
        |j: int|
            if j == 1 + p as int {
                Some(newslot)
            } else if j == 0 && consensus {
                None
            } else {
                match proofs[j] {
                    Some(q) => Some(PlayerProofV { start: q.start - offset, end: q.end - offset, ..q }),
                    None => None,
                }
            },
    )
}

/// After a player diff the shifted slot table is well formed against the
/// compacted log: every kept slot replays to the new live state, some slot
/// starts at the new head, and the owner's slot is dropped only when both
/// player slots are filled.
#[verifier::rlimit(100)]
pub proof fn lemma_player_slots<S: State>(
    v0: ProofV<S::V>,
    dv: DiffV,
    latest: ProofStateV<S::V>,
    ck: ProofStateV<S::V>,
    start: int,
    p: Player,
    consensus: bool,
    offset: int,
)
    requires
        proof_wf::<S>(v0),
        p < 2,
        v0.actions.len() + dv.actions.len() <= u32::MAX,
        ps_serializable::<S>(ck),
        ps_wf::<S>(ck),
        ps_ser::<S>(ck).len() <= u32::MAX,
        dv.proof_signature.len() == 65,
        0 <= start <= v0.actions.len() + dv.actions.len(),
        ps_replay::<S>(ck, (v0.actions + dv.actions).skip(start)) == Some(latest),
        ps_replay::<S>(v0.state, dv.actions) == Some(latest),
        consensus == (v0.proofs[2 - p as int] is Some),
        offset == (if consensus {
            min2(start, v0.proofs[2 - p as int].unwrap().start)
        } else {
            match v0.proofs[0] {
                Some(q) => min2(start, q.start),
                None => start,
            }
        }),
    ensures
        ({
            let combined = v0.actions + dv.actions;
            let newslot = PlayerProofV::<S::V> {
                state: ck,
                start: start - offset,
                end: combined.len() - offset,
                signature: dv.proof_signature,
            };
            let slots2 = shifted_slots(v0.proofs, p, newslot, consensus, offset);
            let acts2 = combined.skip(offset);
            &&& 0 <= offset <= start
            &&& offset <= v0.actions.len()
            &&& forall|i: int|
                0 <= i < 3 ==> ((#[trigger] slots2[i]) matches Some(q) ==> slot_wf::<S>(
                    q,
                    acts2.len() as int,
                ) && ps_replay::<S>(q.state, acts2.skip(q.start)) == Some(latest))
            &&& exists|i: int|
                0 <= i < 3 && ((#[trigger] slots2[i]) matches Some(q) && q.start == 0)
            &&& (slots2[0] is None ==> slots2[1] is Some && slots2[2] is Some)
        }),
{
    let combined = v0.actions + dv.actions;
    let newslot = PlayerProofV::<S::V> {
        state: ck,
        start: start - offset,
        end: combined.len() - offset,
        signature: dv.proof_signature,
    };
    let slots2 = shifted_slots(v0.proofs, p, newslot, consensus, offset);
    let acts2 = combined.skip(offset);
    let other = 2 - p as int;

    assert(v0.proofs[0] is None ==> v0.proofs[1] is Some && v0.proofs[2] is Some);

    if !consensus {
        assert(v0.proofs[other] is None);
        assert(v0.proofs[0] is Some);
    }

    assert(v0.proofs[other] matches Some(q) ==> slot_wf::<S>(q, v0.actions.len() as int));
    assert(v0.proofs[0] matches Some(q) ==> slot_wf::<S>(q, v0.actions.len() as int));

    assert(0 <= offset <= start);
    assert(offset <= v0.actions.len());

    assert forall|i: int| 0 <= i < 3 implies ((#[trigger] slots2[i]) matches Some(q)
        ==> slot_wf::<S>(q, acts2.len() as int) && ps_replay::<S>(q.state, acts2.skip(q.start))
        == Some(latest)) by {
        if slots2[i] is Some {
            let q = slots2[i].unwrap();
            if i == 1 + p as int {
                assert(q == newslot);
                assert(acts2.skip(q.start) =~= combined.skip(start));
            } else {
                let q0 = v0.proofs[i].unwrap();
                assert(slot_wf::<S>(q0, v0.actions.len() as int));
                assert(offset <= q0.start) by {
                    if consensus {
                        assert(i == other || (i == 0 && !consensus));
                        if i != other {
                            assert(false);
                        }
                    }
                }
                assert(acts2.skip(q.start) =~= combined.skip(q0.start));
                assert(combined.skip(q0.start) =~= v0.actions.skip(q0.start) + dv.actions);
                lemma_ps_replay_concat::<S>(q0.state, v0.actions.skip(q0.start), dv.actions);
                assert(ps_replay::<S>(q0.state, v0.actions.skip(q0.start)) == Some(v0.state));
            }
        }
    }

    assert(exists|i: int| 0 <= i < 3 && ((#[trigger] slots2[i]) matches Some(q) && q.start == 0))
        by {
        if consensus {
            if start <= v0.proofs[other].unwrap().start {
                assert(slots2[1 + p as int] matches Some(q) && q.start == 0);
            } else {
                assert(slots2[other] matches Some(q) && q.start == 0);
            }
        } else {
            if start <= v0.proofs[0].unwrap().start {
                assert(slots2[1 + p as int] matches Some(q) && q.start == 0);
            } else {
                assert(slots2[0] matches Some(q) && q.start == 0);
            }
        }
    }
}

/// The consensus rule: what applying a diff does to a proof, or the exact
/// error on which it is rejected.
///
/// A diff must name the proof's hash; its submitter is the owner or a
/// resolvable player; its actions are walked through the live state; the
/// checkpoint signature must recover to the submitter over the retained
/// suffix.  An owner diff collapses the slots to the owner's; a player diff
/// fills the player's slot, drops the owner's when both player slots are
/// filled, and compacts the log to the earliest retained range.
#[verifier::opaque]
pub open spec fn proof_apply<S: State>(v: ProofV<S::V>, d: DiffV) -> Result<ProofV<S::V>, Error> {
    if d.proof != v.hash {
        Err(Error::Hard)
    } else if v.actions.len() + d.actions.len() > u32::MAX {
        Err(Error::Hard)
    } else {
        let owner = d.author == v.root.author;
        let player = if owner {
            None
        } else {
            ps_player_of::<S>(v.state, d.author)
        };
        if !owner && player is None {
            Err(Error::Slashable)
        } else {
            let f = fresh_ix(v.proofs);
            let fp = v.proofs[f].unwrap();
            match diff_walk::<S>(v.state, fp.state, fp.start, v.actions.len() as int, d.actions, player) {
                Err(e) => Err(e),
                Ok(res) => proof_finish::<S>(v, d, player, res.0, res.1, res.2),
            }
        }
    }
}

/// The second half of the consensus rule, after the diff's actions have
/// been walked: verify the checkpoint signature and integrate the new
/// checkpoint into the slot table.
#[verifier::opaque]
pub open spec fn proof_finish<S: State>(
    v: ProofV<S::V>,
    d: DiffV,
    player: Option<Player>,
    latest: ProofStateV<S::V>,
    ck: ProofStateV<S::V>,
    start: int,
) -> Result<ProofV<S::V>, Error> {
    if ps_ser::<S>(ck).len() > u32::MAX {
        Err(Error::Hard)
    } else {
        let combined = v.actions + d.actions;
        let message = ps_ser::<S>(ck) + flat_ser(combined.skip(start));
        match recover_of(message, d.proof_signature) {
            None => Err(Error::Hard),
            Some(signer) => match player {
                None => proof_owner::<S>(v, d, latest, ck, start, signer),
                Some(p) => proof_player::<S>(v, d, latest, ck, start, signer, p),
            },
        }
    }
}

/// Integrating an owner diff: the signer must be the match's owner; the
/// slots collapse to the owner's, covering the whole retained log.
#[verifier::opaque]
pub open spec fn proof_owner<S: State>(
    v: ProofV<S::V>,
    d: DiffV,
    latest: ProofStateV<S::V>,
    ck: ProofStateV<S::V>,
    start: int,
    signer: Seq<u8>,
) -> Result<ProofV<S::V>, Error> {
    let combined = v.actions + d.actions;
    if signer != v.root.author {
        Err(Error::Slashable)
    } else {
        let actions2 = combined.skip(start);
        let slot = PlayerProofV {
            state: ck,
            start: 0,
            end: actions2.len() as int,
            signature: d.proof_signature,
        };
        let v2 = ProofV {
            root: v.root,
            actions: actions2,
            proofs: seq![Some(slot), None, None],
            hash: v.hash,
            state: latest,
        };
        Ok(ProofV { hash: keccak_of(proof_ser::<S>(v2)), ..v2 })
    }
}

/// Integrating a player diff: the signer must resolve to the submitting
/// player in the post-apply state; the player's slot is rewritten, the
/// owner's dropped on consensus, and the log compacted to the earliest
/// retained range.
#[verifier::opaque]
pub open spec fn proof_player<S: State>(
    v: ProofV<S::V>,
    d: DiffV,
    latest: ProofStateV<S::V>,
    ck: ProofStateV<S::V>,
    start: int,
    signer: Seq<u8>,
    p: Player,
) -> Result<ProofV<S::V>, Error> {
    let combined = v.actions + d.actions;
    if ps_player_of::<S>(latest, signer) != Some(p) {
        Err(Error::Slashable)
    } else {
        let other = 2 - p as int;
        let consensus = v.proofs[other] is Some;
        let offset = if consensus {
            min2(start, v.proofs[other].unwrap().start)
        } else {
            match v.proofs[0] {
                Some(q) => min2(start, q.start),
                None => start,
            }
        };
        let newslot = PlayerProofV {
            state: ck,
            start: start - offset,
            end: combined.len() - offset,
            signature: d.proof_signature,
        };
        let proofs2 = shifted_slots(v.proofs, p, newslot, consensus, offset);
        let v2 = ProofV {
            root: v.root,
            actions: combined.skip(offset),
            proofs: proofs2,
            hash: v.hash,
            state: latest,
        };
        Ok(ProofV { hash: keccak_of(proof_ser::<S>(v2)), ..v2 })
    }
}

/// Walks a diff's actions through the live state, collecting events and
/// advancing the checkpoint whenever the state re-enters the serializable
/// region.
fn walk_exec<S: State>(
    latest: &mut ProofState<S>,
    ck: &mut ProofState<S>,
    start: &mut usize,
    n0: usize,
    dacts: &Vec<ProofAction<S::Action>>,
    player: Option<Player>,
) -> (r: Result<Vec<S::Event>, Error>)
    requires
        old(latest).wf(),
        old(ck).wf(),
        ps_serializable::<S>(old(ck)@),
        *old(start) <= n0,
        pa_all_wf(dacts@),
        n0 + dacts@.len() <= u32::MAX,
    ensures
        final(latest).wf(),
        final(ck).wf(),
        ps_serializable::<S>(final(ck)@),
        *final(start) <= n0 + dacts@.len(),
        match r {
            Ok(_) => diff_walk::<S>(
                old(latest)@,
                old(ck)@,
                *old(start) as int,
                n0 as int,
                pa_views(dacts@),
                player,
            ) == Ok::<_, Error>((final(latest)@, final(ck)@, *final(start) as int)),
            Err(e) => diff_walk::<S>(
                old(latest)@,
                old(ck)@,
                *old(start) as int,
                n0 as int,
                pa_views(dacts@),
                player,
            ) == Err::<(ProofStateV<S::V>, ProofStateV<S::V>, int), Error>(e),
        },
{
    let ghost latest0 = old(latest)@;
    let ghost ck0 = old(ck)@;
    let ghost start0 = *old(start) as int;
    let ghost dviews = pa_views(dacts@);

    let dlen = dacts.len();
    let mut events: Vec<S::Event> = Vec::new();
    let mut i: usize = 0;

    proof {
        assert(dviews.skip(0) =~= dviews);
    }

    #[verifier::loop_isolation(false)]
    while i < dlen
        invariant
            i <= dlen,
            latest.wf(),
            ck.wf(),
            ps_serializable::<S>(ck@),
            *start <= n0 + i,
            diff_walk::<S>(latest0, ck0, start0, n0 as int, dviews, player) == diff_walk::<S>(
                latest@,
                ck@,
                *start as int,
                n0 + i,
                dviews.skip(i as int),
                player,
            ),
        decreases dlen - i,
    {
        let a = &dacts[i];

        let pm = match (a.player, player) {
            (None, None) => true,
            (Some(x), Some(y)) => x == y,
            _ => false,
        };

        proof {
            assert(dviews.skip(i as int)[0] == dviews[i as int]);
        }

        if !pm {
            return Err(Error::Slashable);
        }

        let applied = latest.apply(a);

        let mut evs = match applied {
            Ok(e) => e,
            Err(e) => {
                return Err(e);
            },
        };

        events.append(&mut evs);

        i = i + 1;

        if latest.is_serializable() {
            let c2 = latest.dup();
            *ck = c2;
            *start = n0 + i;
        }

        proof {
            assert(dviews.skip(i - 1).skip(1) =~= dviews.skip(i as int));
        }
    }

    proof {
        assert(dviews.skip(dlen as int) =~= Seq::<ProofActionV>::empty());
    }

    Ok(events)
}

/// The model of exec slot headers.
pub open spec fn raw_views(s: Seq<Option<(usize, usize, Vec<u8>)>>) -> Seq<
    Option<(int, int, Seq<u8>)>,
> {
    s.map_values(
        |o: Option<(usize, usize, Vec<u8>)>|
            match o {
                Some(r) => Some((r.0 as int, r.1 as int, r.2@)),
                None => None,
            },
    )
}

/// Reads `k` slot headers starting at `at`.
#[verifier::rlimit(100)]
fn read_slots(data: &[u8], at: usize, k: usize) -> (r: Result<
    (Vec<Option<(usize, usize, Vec<u8>)>>, usize),
    Error,
>)
    requires
        at <= data@.len(),
    ensures
        match r {
            Ok((v, end)) => ({
                &&& slots_de(data@, at as int, k as int) == Some((raw_views(v@), end as int))
                &&& v@.len() == k
                &&& at <= end <= data@.len()
                &&& raw_slots_ser(raw_views(v@)) == data@.subrange(at as int, end as int)
                &&& forall|j: int|
                    0 <= j < k ==> ((#[trigger] raw_views(v@)[j]) matches Some(rw) ==> rw.2.len()
                        == 65 && 0 <= rw.0 <= u32::MAX && 0 <= rw.1 <= u32::MAX)
            }),
            Err(e) => slots_de(data@, at as int, k as int) is None && e == Error::Hard,
        },
    decreases k,
{
    let dlen: usize = data.len();

    if k == 0 {
        let empty: Vec<Option<(usize, usize, Vec<u8>)>> = Vec::new();

        proof {
            assert(raw_views(empty@) =~= Seq::<Option<(int, int, Seq<u8>)>>::empty());
            assert(raw_slots_ser(raw_views(empty@)) =~= data@.subrange(at as int, at as int));
        }

        return Ok((empty, at));
    }

    let present = codec::read_u8_bool(data, at)?;

    let (head, at2): (Option<(usize, usize, Vec<u8>)>, usize) = if present {
        if dlen - at < 74 {
            return Err(Error::Hard);
        }

        let start = codec::read_u32_usize(data, at + 1)?;
        let end = codec::read_u32_usize(data, at + 5)?;
        let sig = codec::read_bytes(data, at + 9, 65)?;

        proof {
            codec::lemma_u32_le(start as u32);
            codec::lemma_u32_le(end as u32);
        }

        (Some((start, end, sig)), at + 74)
    } else {
        (None, at + 1)
    };

    let (rest, fin) = read_slots(data, at2, k - 1)?;

    let ghost rest_view = rest@;
    let ghost head_view = head;
    let mut v = rest;
    v.insert(0, head);

    proof {
        assert(v@.skip(1) =~= rest_view);
        assert(raw_views(v@) =~= seq![raw_views(v@)[0]] + raw_views(rest_view));
        assert(raw_views(v@).skip(1) =~= raw_views(rest_view));
        assert(raw_views(v@)[0] == (match head_view {
            Some(r) => Some((r.0 as int, r.1 as int, r.2@)),
            None => None,
        }));
        lemma_raw_slots_shift(raw_views(v@));

        match head_view {
            Some(r) => {
                assert(data@.subrange(at as int, at2 as int) =~= seq![1u8] + codec::u32_le(
                    r.0 as u32,
                ) + codec::u32_le(r.1 as u32) + r.2@);
            },
            None => {
                assert(data@.subrange(at as int, at2 as int) =~= seq![0u8]);
            },
        }

        assert(data@.subrange(at as int, fin as int) =~= data@.subrange(at as int, at2 as int)
            + data@.subrange(at2 as int, fin as int));
        assert(raw_slots_ser(raw_views(v@)) =~= data@.subrange(at as int, fin as int));
    }

    Ok((v, fin))
}

/// In a non-empty header table the encoding is the first header followed by
/// the encoding of the rest.
proof fn lemma_raw_slots_shift(s: Seq<Option<(int, int, Seq<u8>)>>)
    requires
        s.len() > 0,
    ensures
        raw_slots_ser(s) == (match s[0] {
            Some(r) => seq![1u8] + codec::u32_le(r.0 as u32) + codec::u32_le(r.1 as u32) + r.2,
            None => seq![0u8],
        }) + raw_slots_ser(s.skip(1)),
    decreases s.len(),
{
    if s.len() == 1 {
        assert(s.drop_last() =~= Seq::<Option<(int, int, Seq<u8>)>>::empty());
        assert(s.skip(1) =~= Seq::<Option<(int, int, Seq<u8>)>>::empty());
        assert(raw_slots_ser(s) =~= (match s[0] {
            Some(r) => seq![1u8] + codec::u32_le(r.0 as u32) + codec::u32_le(r.1 as u32) + r.2,
            None => seq![0u8],
        }) + raw_slots_ser(s.skip(1)));
    } else {
        lemma_raw_slots_shift(s.drop_last());
        assert(s.drop_last()[0] == s[0]);
        assert(s.drop_last().skip(1) =~= s.skip(1).drop_last());
        assert(s.skip(1).last() == s.last());
        assert(raw_slots_ser(s) =~= (match s[0] {
            Some(r) => seq![1u8] + codec::u32_le(r.0 as u32) + codec::u32_le(r.1 as u32) + r.2,
            None => seq![0u8],
        }) + raw_slots_ser(s.skip(1)));
    }
}

/// Whether some header's range starts at `i`.
fn raw_start_at(raws: &Vec<Option<(usize, usize, Vec<u8>)>>, i: usize) -> (r: bool)
    requires
        raws@.len() == 3,
    ensures
        r == exists|q: int|
            0 <= q < 3 && ((#[trigger] raw_views(raws@)[q]) matches Some(rr) && rr.0 == i),
{
    let mut q: usize = 0;

    #[verifier::loop_isolation(false)]
    while q < 3
        invariant
            q <= 3,
            forall|t: int|
                0 <= t < q ==> !((#[trigger] raw_views(raws@)[t]) matches Some(rr) && rr.0 == i),
        decreases 3 - q,
    {
        match &raws[q] {
            Some(rw) => {
                if rw.0 == i {
                    proof {
                        assert(raw_views(raws@)[q as int] matches Some(rr) && rr.0 == i);
                    }
                    return true;
                }
            },
            None => {},
        }

        q = q + 1;
    }

    false
}

/// Whether some header's range covers `i` strictly.
fn raw_covers(raws: &Vec<Option<(usize, usize, Vec<u8>)>>, i: usize) -> (r: bool)
    requires
        raws@.len() == 3,
    ensures
        r == exists|q: int|
            0 <= q < 3 && ((#[trigger] raw_views(raws@)[q]) matches Some(rr) && rr.0 < i && i
                <= rr.1),
{
    let mut q: usize = 0;

    #[verifier::loop_isolation(false)]
    while q < 3
        invariant
            q <= 3,
            forall|t: int|
                0 <= t < q ==> !((#[trigger] raw_views(raws@)[t]) matches Some(rr) && rr.0 < i
                    && i <= rr.1),
        decreases 3 - q,
    {
        match &raws[q] {
            Some(rw) => {
                if rw.0 < i && i <= rw.1 {
                    proof {
                        assert(raw_views(raws@)[q as int] matches Some(rr) && rr.0 < i && i
                            <= rr.1);
                    }
                    return true;
                }
            },
            None => {},
        }

        q = q + 1;
    }

    false
}

/// Whether the action at position `i` lies under a covering slot, per its
/// attribution.
fn action_reachable(
    raws: &Vec<Option<(usize, usize, Vec<u8>)>>,
    player: Option<Player>,
    i: usize,
) -> (r: bool)
    requires
        raws@.len() == 3,
    ensures
        ({
            let rawv = raw_views(raws@);
            r == match player {
                None => rawv[0] matches Some(rr) && rr.1 > i,
                Some(p) => (rawv[0] matches Some(rr) && rr.1 > i) || (1 + p < 3 && (rawv[1
                    + p as int] matches Some(rr) && rr.1 > i)),
            }
        }),
{
    let c0 = match &raws[0] {
        Some(rw) => rw.1 > i,
        None => false,
    };

    match player {
        None => c0,
        Some(p) => {
            if c0 {
                true
            } else if (p as usize) + 1 < 3 {
                match &raws[1 + p as usize] {
                    Some(rw) => rw.1 > i,
                    None => false,
                }
            } else {
                false
            }
        },
    }
}

/// Replays the log from the base checkpoint, checking the per-position
/// duality and reachability conditions and collecting each filled slot's
/// checkpoint state on the way.
#[verifier::rlimit(100)]
#[verifier::spinoff_prover]
fn replay_validate<S: State>(
    base: &ProofState<S>,
    actions: &Vec<ProofAction<S::Action>>,
    raws: &Vec<Option<(usize, usize, Vec<u8>)>>,
) -> (r: Result<(ProofState<S>, Vec<Option<PlayerProof<S>>>), Error>)
    requires
        base.wf(),
        ps_serializable::<S>(base@),
        pa_all_wf(actions@),
        actions@.len() <= u32::MAX,
        raws@.len() == 3,
        slot_shape_ok(raw_views(raws@), actions@.len() as int),
    ensures
        ({
            let views = pa_views(actions@);
            let rawv = raw_views(raws@);
            match r {
                Ok((live, built)) => {
                    &&& live.wf()
                    &&& ps_replay::<S>(base@, views) == Some(live@)
                    &&& built@.len() == 3
                    &&& forall|q: int|
                        0 <= q < 3 ==> ((#[trigger] built@[q]) matches Some(b) ==> b.state.wf()
                            && ps_serializable::<S>(b.state@) && 0 <= b.start <= b.end
                            <= actions@.len())
                    &&& slot_views(built@) == mk_slots::<S>(base@, views, rawv)
                    &&& slot_states_ok::<S>(base@, views, rawv)
                    &&& reach_ok(views, rawv)
                },
                Err(e) => e == Error::Hard && !(ps_replay::<S>(base@, views) is Some
                    && slot_states_ok::<S>(base@, views, rawv) && reach_ok(views, rawv)),
            }
        }),
{
    let ghost views = pa_views(actions@);
    let ghost rawv = raw_views(raws@);
    let ghost basev = base@;

    let n = actions.len();

    let mut live = base.dup();

    let mut built: Vec<Option<PlayerProof<S>>> = Vec::new();
    built.push(None);
    built.push(None);
    built.push(None);

    let mut i: usize = 0;

    proof {
        assert(views.take(0) =~= Seq::<ProofActionV>::empty());
        assert(slot_views(built@) =~= seq![
            None::<PlayerProofV<S::V>>,
            None::<PlayerProofV<S::V>>,
            None::<PlayerProofV<S::V>>,
        ]);
    }

    let mut done = false;

    #[verifier::loop_isolation(false)]
    while !done
        invariant
            i <= n,
            n == actions@.len(),
            n <= u32::MAX,
            done ==> i == n,
            live.wf(),
            ps_replay::<S>(basev, views.take(i as int)) == Some(live@),
            built@.len() == 3,
            forall|q: int|
                0 <= q < 3 ==> ((#[trigger] built@[q]) matches Some(b) ==> b.state.wf()),
            forall|q: int|
                0 <= q < 3 ==> (#[trigger] slot_views(built@)[q]) == (match rawv[q] {
                    Some(rr) => if rr.0 < i + (if done {
                        1int
                    } else {
                        0int
                    }) {
                        mk_slots::<S>(basev, views, rawv)[q]
                    } else {
                        None
                    },
                    None => None,
                }),
            forall|k: int|
                0 <= k < i + (if done {
                    1int
                } else {
                    0int
                }) ==> {
                    let w = #[trigger] ps_replay::<S>(basev, views.take(k));
                    &&& ((exists|q: int|
                        0 <= q < 3 && ((#[trigger] rawv[q]) matches Some(rr) && rr.0 == k)) ==> (
                    w matches Some(x) && ps_serializable::<S>(x)))
                    &&& ((exists|q: int|
                        0 <= q < 3 && ((#[trigger] rawv[q]) matches Some(rr) && rr.0 < k
                            <= rr.1)) ==> (w matches Some(x) && !ps_serializable::<S>(x)))
                },
            forall|k: int|
                0 <= k < i && k < n ==> match (#[trigger] views[k]).player {
                    None => rawv[0] matches Some(rr) && rr.1 > k,
                    Some(p) => (rawv[0] matches Some(rr) && rr.1 > k) || (1 + p < 3 && (rawv[1
                        + p as int] matches Some(rr) && rr.1 > k)),
                },
        decreases n - i, (if done {
            0int
        } else {
            1int
        }),
    {
        let starts_here = raw_start_at(raws, i);
        let covered = raw_covers(raws, i);

        if starts_here || covered {
            let ser_ok = live.is_serializable();

            if starts_here && !ser_ok {
                return Err(Error::Hard);
            }

            if covered && ser_ok {
                return Err(Error::Hard);
            }
        }

        if starts_here {
            let mut j: usize = 0;

            #[verifier::loop_isolation(false)]
            while j < 3
                invariant
                    j <= 3,
                    built@.len() == 3,
                    forall|q: int|
                        0 <= q < 3 ==> ((#[trigger] built@[q]) matches Some(b) ==> b.state.wf()),
                    forall|q: int|
                        0 <= q < 3 ==> (#[trigger] slot_views(built@)[q]) == (match rawv[q] {
                            Some(rr) => if rr.0 < i || (rr.0 == i && q < j) {
                                mk_slots::<S>(basev, views, rawv)[q]
                            } else {
                                None
                            },
                            None => None,
                        }),
                decreases 3 - j,
            {
                let fill = match &raws[j] {
                    Some(rw) => rw.0 == i,
                    None => false,
                };

                if fill {
                    let (start, end_j, sig) = match &raws[j] {
                        Some(rw) => (rw.0, rw.1, codec::dup_bytes(&rw.2)),
                        None => {
                            proof {
                                assert(false);
                            }
                            (0, 0, Vec::new())
                        },
                    };

                    let slot = PlayerProof { state: live.dup(), start, end: end_j, signature: sig };

                    let ghost prev = built@;

                    built.set(j, Some(slot));

                    proof {
                        assert(built@ =~= prev.update(j as int, built@[j as int]));
                        assert(slot_views(built@)[j as int] == mk_slots::<S>(
                            basev,
                            views,
                            rawv,
                        )[j as int]);
                        assert forall|q: int| 0 <= q < 3 && q != j implies #[trigger] slot_views(
                            built@,
                        )[q] == slot_views(prev)[q] by {
                            assert(built@[q] == prev[q]);
                        }
                    }
                }

                j = j + 1;
            }
        }

        if i < n {
            let reachable = action_reachable(raws, actions[i].player, i);

            if !reachable {
                return Err(Error::Hard);
            }

            proof {
                assert(views.take(i + 1) =~= views.take(i as int).push(views[i as int]));
                lemma_ps_replay_snoc::<S>(basev, views.take(i as int), views[i as int]);
            }

            match live.apply(&actions[i]) {
                Ok(_) => {},
                Err(_) => {
                    proof {
                        assert(views.take(n as int) =~= views);
                        lemma_ps_replay_prefix_bad::<S>(basev, views, i + 1);
                    }
                    return Err(Error::Hard);
                },
            }

            i = i + 1;
        } else {
            done = true;
        }
    }

    proof {
        assert(views.take(n as int) =~= views);
        assert(slot_states_ok::<S>(basev, views, rawv));
        assert(reach_ok(views, rawv));
        assert(slot_views(built@) =~= mk_slots::<S>(basev, views, rawv));

        assert forall|q: int| 0 <= q < 3 implies ((#[trigger] built@[q]) matches Some(b)
            ==> b.state.wf() && ps_serializable::<S>(b.state@) && 0 <= b.start <= b.end
            <= actions@.len()) by {
            match built@[q] {
                Some(b) => {
                    assert(slot_views(built@)[q] == mk_slots::<S>(basev, views, rawv)[q]);
                    assert(rawv[q] matches Some(rr) && (exists|t: int|
                        0 <= t < 3 && ((#[trigger] rawv[t]) matches Some(r2) && r2.0 == rr.0)));
                },
                None => {},
            }
        }
    }

    Ok((live, built))
}

/// A failed replay prefix fails the whole replay.
proof fn lemma_ps_replay_prefix_bad<S: State>(
    state: ProofStateV<S::V>,
    views: Seq<ProofActionV>,
    k: int,
)
    requires
        0 <= k <= views.len(),
        ps_replay::<S>(state, views.take(k)) is None,
    ensures
        ps_replay::<S>(state, views) is None,
{
    assert(views.take(k) + views.skip(k) =~= views);
    lemma_ps_replay_concat::<S>(state, views.take(k), views.skip(k));
}

/// Verifies each filled slot's signature over its checkpoint state and
/// range, and that each checkpoint fits a length frame.
#[verifier::rlimit(100)]
#[verifier::spinoff_prover]
fn verify_slots<S: State>(
    root_author: &Vec<u8>,
    actions: &Vec<ProofAction<S::Action>>,
    built: &Vec<Option<PlayerProof<S>>>,
    live: &ProofState<S>,
) -> (r: Result<(), Error>)
    requires
        pa_all_wf(actions@),
        live.wf(),
        built@.len() == 3,
        forall|q: int|
            0 <= q < 3 ==> ((#[trigger] built@[q]) matches Some(b) ==> b.state.wf()
                && ps_serializable::<S>(b.state@) && 0 <= b.start <= b.end <= actions@.len()),
    ensures
        ({
            let views = pa_views(actions@);
            let slots = slot_views(built@);
            match r {
                Ok(_) => slot_sigs_ok::<S>(root_author@, views, slots, live@)
                    && slot_lens_ok::<S>(slots),
                Err(e) => e == Error::Hard && !(slot_sigs_ok::<S>(
                    root_author@,
                    views,
                    slots,
                    live@,
                ) && slot_lens_ok::<S>(slots)),
            }
        }),
{
    let ghost views = pa_views(actions@);
    let ghost slots = slot_views(built@);

    let mut j: usize = 0;

    #[verifier::loop_isolation(false)]
    while j < 3
        invariant
            j <= 3,
            forall|q: int|
                0 <= q < j ==> ((#[trigger] slots[q]) matches Some(p) ==> {
                    let message = ps_ser::<S>(p.state) + flat_ser(
                        views.subrange(p.start, p.end),
                    );
                    &&& ps_ser::<S>(p.state).len() <= u32::MAX
                    &&& match recover_of(message, p.signature) {
                        Some(rec) => if q == 0 {
                            rec == root_author@
                        } else {
                            ps_player_of::<S>(live@, rec) == Some((q - 1) as Player)
                        },
                        None => false,
                    }
                }),
        decreases 3 - j,
    {
        match &built[j] {
            Some(slot) => {
                let state_bytes = match slot.state.serialize() {
                    Some(b) => b,
                    None => {
                        proof {
                            assert(false);
                        }
                        Vec::new()
                    },
                };

                if state_bytes.len() > u32::MAX as usize {
                    proof {
                        assert(!slot_lens_ok::<S>(slots)) by {
                            assert(slots[j as int] matches Some(p) && ps_ser::<S>(p.state).len()
                                > u32::MAX);
                        }
                    }
                    return Err(Error::Hard);
                }

                let mut message = state_bytes;
                crate::action::write_actions_range(&mut message, actions, slot.start, slot.end);

                let rec = match crypto::recover(message.as_slice(), slot.signature.as_slice()) {
                    Ok(rec) => rec,
                    Err(_) => {
                        proof {
                            assert(!slot_sigs_ok::<S>(root_author@, views, slots, live@)) by {
                                assert(slots[j as int] is Some);
                            }
                        }
                        return Err(Error::Hard);
                    },
                };

                if j == 0 {
                    if !codec::bytes_eq(rec.as_slice(), root_author.as_slice()) {
                        proof {
                            assert(!slot_sigs_ok::<S>(root_author@, views, slots, live@)) by {
                                assert(slots[0] is Some);
                            }
                        }
                        return Err(Error::Hard);
                    }
                } else {
                    let who = live.player(&rec);

                    let ok = match who {
                        Some(p) => p as usize == j - 1,
                        None => false,
                    };

                    if !ok {
                        proof {
                            assert(!slot_sigs_ok::<S>(root_author@, views, slots, live@)) by {
                                assert(slots[j as int] is Some);
                            }
                        }
                        return Err(Error::Hard);
                    }
                }
            },
            None => {},
        }

        j = j + 1;
    }

    Ok(())
}

/// Parses a proof buffer: the length-prefixed base checkpoint (which must
/// belong to the given match), the framed log, and the three slot headers,
/// with the headers' structural checks applied.
#[verifier::rlimit(100)]
#[verifier::spinoff_prover]
fn parse_proof_buffer<S: State>(root_state: &ProofState<S>, data: &[u8]) -> (r: Result<
    (ProofState<S>, Vec<ProofAction<S::Action>>, Vec<Option<(usize, usize, Vec<u8>)>>, usize, usize),
    Error,
>)
    requires
        root_state.wf(),
    ensures
        match r {
            Ok((base, actions, raws, size, end)) => ({
                let dl = data@.len() as int;
                &&& base.wf()
                &&& ps_serializable::<S>(base@)
                &&& base@.id == root_state@.id
                &&& base@.players == root_state@.players
                &&& pa_all_wf(actions@)
                &&& actions@.len() <= u32::MAX
                &&& raws@.len() == 3
                &&& slot_shape_ok(raw_views(raws@), actions@.len() as int)
                &&& size <= u32::MAX
                &&& 4 + size + 4 <= dl
                &&& 8 + size <= end <= dl
                &&& codec::u32_le(size as u32) == data@.subrange(0, 4)
                &&& ps_de::<S>(data@.subrange(4, 4 + size)) == Some(base@)
                &&& ps_ser::<S>(base@) == data@.subrange(4, 4 + size)
                &&& ps_ser::<S>(base@).len() == size
                &&& codec::u32_le(actions@.len() as u32) == data@.subrange(4 + size, 8 + size)
                &&& codec::le_u32(data@.subrange(4 + size, 8 + size)) == actions@.len()
                &&& actions_de::<S::Action>(data@, 8 + size, codec::le_u32(
                    data@.subrange(4 + size, 8 + size),
                )) == Some((pa_views(actions@), end as int))
                &&& framed_ser(pa_views(actions@)) == data@.subrange(8 + size, end as int)
                &&& slots_de(data@, end as int, 3) == Some((raw_views(raws@), dl))
                &&& raw_slots_ser(raw_views(raws@)) == data@.subrange(end as int, dl)
                &&& forall|j: int|
                    0 <= j < 3 ==> ((#[trigger] raw_views(raws@)[j]) matches Some(rw)
                        ==> rw.2.len() == 65 && 0 <= rw.0 <= u32::MAX && 0 <= rw.1 <= u32::MAX)
            }),
            Err(e) => e == Error::Hard,
        },
{
    let dlen: usize = data.len();

    if dlen < 4 {
        return Err(Error::Hard);
    }

    let size = codec::read_u32_usize(data, 0)?;

    proof {
        codec::lemma_u32_le(size as u32);
    }

    if size > dlen - 4 {
        return Err(Error::Hard);
    }

    let base = match ProofState::<S>::deserialize(&data[4..4 + size]) {
        Ok(b) => b,
        Err(_) => {
            return Err(Error::Hard);
        },
    };

    if !base.same_id(root_state) || !base.same_players(root_state) {
        return Err(Error::Hard);
    }

    if dlen - 4 - size < 4 {
        return Err(Error::Hard);
    }

    let count = codec::read_u32_usize(data, 4 + size)?;

    proof {
        codec::lemma_u32_le(count as u32);
    }

    let (actions, end) = match crate::action::read_actions::<S::Action>(data, 8 + size, count) {
        Ok(p) => p,
        Err(_) => {
            return Err(Error::Hard);
        },
    };

    let (raws, end2) = match read_slots(data, end, 3) {
        Ok(p) => p,
        Err(_) => {
            return Err(Error::Hard);
        },
    };

    if end2 != dlen {
        return Err(Error::Hard);
    }

    let ghost rawv = raw_views(raws@);

    let n = actions.len();

    let mut has_zero = false;
    let mut all_some = true;
    let mut j: usize = 0;

    #[verifier::loop_isolation(false)]
    while j < 3
        invariant
            j <= 3,
            has_zero == (exists|q: int|
                0 <= q < j && ((#[trigger] rawv[q]) matches Some(rr) && rr.0 == 0)),
            all_some == (forall|q: int| 0 <= q < j ==> (#[trigger] rawv[q]) is Some),
            forall|q: int|
                0 <= q < j ==> ((#[trigger] rawv[q]) matches Some(rr) ==> 0 <= rr.0 <= rr.1 <= n),
        decreases 3 - j,
    {
        match &raws[j] {
            Some(rw) => {
                if rw.1 > n || rw.0 > rw.1 {
                    return Err(Error::Hard);
                }

                if rw.0 == 0 {
                    has_zero = true;
                }
            },
            None => {
                all_some = false;
            },
        }

        j = j + 1;
    }

    if !has_zero || all_some {
        return Err(Error::Hard);
    }

    let slot0_none = match &raws[0] {
        Some(_) => false,
        None => true,
    };

    if slot0_none {
        let ok = match (&raws[1], &raws[2]) {
            (Some(_), Some(_)) => true,
            _ => false,
        };

        if !ok {
            return Err(Error::Hard);
        }
    }

    proof {
        assert(slot_shape_ok(rawv, n as int));
    }

    Ok((base, actions, raws, size, end))
}

/// A slot table assembled from headers encodes as the headers do: the
/// encoding never reads the checkpoint states.
proof fn lemma_slots_ser_raw<S: State>(
    slots: Seq<Option<PlayerProofV<S::V>>>,
    raws: Seq<Option<(int, int, Seq<u8>)>>,
)
    requires
        slots.len() == raws.len(),
        forall|j: int|
            0 <= j < raws.len() ==> (match raws[j] {
                Some(rr) => (#[trigger] slots[j]) matches Some(p) && p.start == rr.0 && p.end
                    == rr.1 && p.signature == rr.2,
                None => slots[j] is None,
            }),
    ensures
        slots_ser(slots) == raw_slots_ser(raws),
    decreases raws.len(),
{
    if raws.len() > 0 {
        assert forall|j: int| 0 <= j < raws.drop_last().len() implies (match raws.drop_last()[j] {
            Some(rr) => (#[trigger] slots.drop_last()[j]) matches Some(p) && p.start == rr.0
                && p.end == rr.1 && p.signature == rr.2,
            None => slots.drop_last()[j] is None,
        }) by {
            assert(raws.drop_last()[j] == raws[j]);
            assert(slots.drop_last()[j] == slots[j]);
        }
        lemma_slots_ser_raw::<S>(slots.drop_last(), raws.drop_last());
        assert(slots.last() == slots[raws.len() - 1]);
        assert(raws.last() == raws[raws.len() - 1]);
    }
}

/// The duality predicate follows from the per-position checks on the
/// headers a decoded proof was assembled from.
proof fn lemma_duality_from_raws<S: State>(
    v: ProofV<S::V>,
    basev: ProofStateV<S::V>,
    rawv: Seq<Option<(int, int, Seq<u8>)>>,
)
    requires
        rawv.len() == 3,
        v.proofs == mk_slots::<S>(basev, v.actions, rawv),
        slot_states_ok::<S>(basev, v.actions, rawv),
        0 <= earliest_ix(v.proofs) < 3,
        v.proofs[earliest_ix(v.proofs)] matches Some(p) && p.state == basev,
    ensures
        proof_duality::<S>(v),
{
    assert forall|k: int| 0 <= k <= v.actions.len() implies {
        let w = #[trigger] ps_replay::<S>(
            v.proofs[earliest_ix(v.proofs)].unwrap().state,
            v.actions.take(k),
        );
        &&& ((exists|q: int|
            0 <= q < 3 && ((#[trigger] v.proofs[q]) matches Some(p) && p.start == k)) ==> (w
            matches Some(x) && ps_serializable::<S>(x)))
        &&& ((exists|q: int|
            0 <= q < 3 && ((#[trigger] v.proofs[q]) matches Some(p) && p.start < k <= p.end))
            ==> (w matches Some(x) && !ps_serializable::<S>(x)))
    } by {
        if exists|q: int|
            0 <= q < 3 && ((#[trigger] v.proofs[q]) matches Some(p) && p.start == k) {
            let q = choose|q: int|
                0 <= q < 3 && ((#[trigger] v.proofs[q]) matches Some(p) && p.start == k);
            assert(rawv[q] matches Some(rr) && rr.0 == k);
        }
        if exists|q: int|
            0 <= q < 3 && ((#[trigger] v.proofs[q]) matches Some(p) && p.start < k <= p.end) {
            let q = choose|q: int|
                0 <= q < 3 && ((#[trigger] v.proofs[q]) matches Some(p) && p.start < k
                    <= p.end);
            assert(rawv[q] matches Some(rr) && rr.0 < k <= rr.1);
        }
    }
}

/// An owned copy of a slot with its range shifted down by `offset`.
fn dup_shifted<S: State>(slot: &Option<PlayerProof<S>>, offset: usize) -> (r: Option<
    PlayerProof<S>,
>)
    requires
        (*slot) matches Some(q) ==> q.state.wf() && ps_serializable::<S>(q.state@) && offset
            <= q.start <= q.end,
    ensures
        match r {
            Some(q2) => (*slot) matches Some(q) && q2.state.wf() && q2@ == (PlayerProofV {
                start: q@.start - offset,
                end: q@.end - offset,
                ..q@
            }),
            None => (*slot) is None,
        },
{
    match slot {
        Some(q) => {
            let r = PlayerProof {
                state: q.state.dup(),
                start: q.start - offset,
                end: q.end - offset,
                signature: codec::dup_bytes(&q.signature),
            };

            proof {
                assert(r@ =~= (PlayerProofV { start: q@.start - offset, end: q@.end - offset, ..q@ }));
            }

            Some(r)
        },
        None => None,
    }
}

/// The index of the freshest filled slot.
fn fresh_slot<S: State>(proofs: &Vec<Option<PlayerProof<S>>>) -> (r: usize)
    requires
        proofs@.len() == 3,
        exists|i: int| 0 <= i < 3 && (#[trigger] slot_views(proofs@)[i]) is Some,
    ensures
        r < 3,
        r == fresh_ix(slot_views(proofs@)),
        slot_views(proofs@)[r as int] is Some,
{
    let ghost views = slot_views(proofs@);

    proof {
        lemma_fresh_ix_some(views);
        assert(views.drop_last().drop_last() =~= views.subrange(0, 1));
        assert(views.drop_last() =~= views.subrange(0, 2));
        assert(views.subrange(0, 1)[0] == views[0]);
        assert(views.subrange(0, 2)[0] == views[0]);
        assert(views.subrange(0, 2)[1] == views[1]);
        assert(fresh_ix(views.subrange(0, 1)) == 0);
    }

    let f2: usize = match (&proofs[0], &proofs[1]) {
        (Some(a), Some(b)) => if b.end >= a.end {
            1
        } else {
            0
        },
        (None, Some(_)) => 1,
        _ => 0,
    };

    proof {
        assert(f2 == fresh_ix(views.subrange(0, 2)));
    }

    let f3: usize = match (&proofs[f2], &proofs[2]) {
        (Some(a), Some(b)) => if b.end >= a.end {
            2
        } else {
            f2
        },
        (None, Some(_)) => 2,
        _ => f2,
    };

    proof {
        assert(f3 == fresh_ix(views));
    }

    f3
}

/// Writes a proof's encoding.
fn self_serialize<S: State>(p: &Proof<S>) -> (r: Vec<u8>)
    requires
        p.root.wf(),
        pa_all_wf(p.actions@),
        forall|i: int|
            0 <= i < p.proofs@.len() ==> ((#[trigger] p.proofs@[i]) matches Some(q)
                ==> q.state.wf()),
        p@.actions.len() <= u32::MAX,
        p@.proofs.len() == 3,
        forall|i: int|
            0 <= i < 3 ==> ((#[trigger] p@.proofs[i]) matches Some(q) ==> slot_wf::<S>(
                q,
                p@.actions.len() as int,
            )),
        exists|i: int| 0 <= i < 3 && ((#[trigger] p@.proofs[i]) matches Some(q) && q.start == 0),
    ensures
        r@ == proof_ser::<S>(p@),
{
    proof {
        lemma_earliest_ix(p@.proofs);
    }

    let e = earliest_slot(&p.proofs);

    let base = match &p.proofs[e] {
        Some(q) => match q.state.serialize() {
            Some(b) => b,
            None => {
                proof {
                    assert(false);
                }
                Vec::new()
            },
        },
        None => {
            proof {
                assert(false);
            }
            Vec::new()
        },
    };

    let mut out: Vec<u8> = Vec::new();

    let wrote = codec::write_u32_usize(&mut out, base.len());

    proof {
        assert(wrote is Ok);
    }

    codec::write_bytes(&mut out, base.as_slice());

    let wrote2 = codec::write_u32_usize(&mut out, p.actions.len());

    proof {
        assert(wrote2 is Ok);
    }

    write_actions_framed(&mut out, &p.actions, 0);

    let ghost views = slot_views(p.proofs@);
    let ghost prefix = out@;

    let mut i: usize = 0;

    proof {
        assert(views.subrange(0, 0) =~= Seq::<Option<PlayerProofV<S::V>>>::empty());
        assert(out@ =~= prefix + slots_ser(views.subrange(0, 0)));
    }

    #[verifier::loop_isolation(false)]
    while i < 3
        invariant
            i <= 3,
            out@ == prefix + slots_ser(views.subrange(0, i as int)),
        decreases 3 - i,
    {
        match &p.proofs[i] {
            Some(q) => {
                codec::write_u8(&mut out, 1);

                let w1 = codec::write_u32_usize(&mut out, q.start);
                let w2 = codec::write_u32_usize(&mut out, q.end);

                proof {
                    assert(views[i as int] matches Some(x) && slot_wf::<S>(
                        x,
                        p@.actions.len() as int,
                    ));
                    assert(w1 is Ok && w2 is Ok);
                }

                codec::write_bytes(&mut out, q.signature.as_slice());
            },
            None => {
                codec::write_u8(&mut out, 0);
            },
        }

        i = i + 1;

        proof {
            assert(views.subrange(0, i as int).drop_last() =~= views.subrange(0, i - 1));
            assert(views.subrange(0, i as int).last() == views[i - 1]);
            assert(out@ =~= prefix + slots_ser(views.subrange(0, i as int)));
        }
    }

    proof {
        assert(views.subrange(0, 3) =~= views);
        assert(pa_views(p.actions@).subrange(0, p.actions@.len() as int) =~= pa_views(
            p.actions@,
        ));
        assert(out@ =~= proof_ser::<S>(p@));
    }

    out
}

/// The index of the first filled slot whose range starts at the head.
fn earliest_slot<S: State>(proofs: &Vec<Option<PlayerProof<S>>>) -> (r: usize)
    requires
        proofs@.len() == 3,
        exists|i: int|
            0 <= i < 3 && ((#[trigger] slot_views(proofs@)[i]) matches Some(q) && q.start == 0),
    ensures
        r < 3,
        r == earliest_ix(slot_views(proofs@)),
        slot_views(proofs@)[r as int] matches Some(q) && q.start == 0,
{
    let ghost views = slot_views(proofs@);

    proof {
        lemma_earliest_ix(views);
        assert(views.skip(1)[0] == views[1]);
        assert(views.skip(1).skip(1)[0] == views[2]);
    }

    if let Some(p) = &proofs[0] {
        if p.start == 0 {
            return 0;
        }
    }

    if let Some(p) = &proofs[1] {
        if p.start == 0 {
            proof {
                assert(earliest_ix(views) == 1 + earliest_ix(views.skip(1)));
                assert(earliest_ix(views.skip(1)) == 0);
            }
            return 1;
        }
    }

    proof {
        if !(views[2] matches Some(q) && q.start == 0) {
            assert(false);
        }
    }

    2
}

} // verus!
