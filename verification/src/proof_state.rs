//! A snapshot of the game: identifier, nonce, the two player addresses, the
//! subkey certificate table, and the domain state.

use vstd::prelude::*;
use crate::{Action, Error, ID, Nonce, Player, State};
use crate::action::{PlayerAction, PlayerActionV, ProofAction, ProofActionV};
use crate::codec;
use crate::codec::{lemma_lex_conn, lemma_lex_trans, lex_lt};
use crate::crypto;
use crate::crypto::recover_of;

verus! {

/// The abstract model of a `ProofState`: the identifier's and nonce's bytes,
/// the two player addresses, the certificate table in ascending address
/// order, and the domain state's model.
pub struct ProofStateV<SV> {
    pub id: Seq<u8>,
    pub nonce: Seq<u8>,
    pub players: Seq<Seq<u8>>,
    pub certs: Seq<(Seq<u8>, Seq<u8>)>,
    pub state: SV,
}

/// The signature a certificate table holds for an address, if any.
pub open spec fn cert_find(certs: Seq<(Seq<u8>, Seq<u8>)>, address: Seq<u8>) -> Option<Seq<u8>>
    decreases certs.len(),
{
    if certs.len() == 0 {
        None
    } else if certs[0].0 == address {
        Some(certs[0].1)
    } else {
        cert_find(certs.skip(1), address)
    }
}

/// The position at which an address belongs in an ascending certificate
/// table.
pub open spec fn cert_pos(certs: Seq<(Seq<u8>, Seq<u8>)>, address: Seq<u8>) -> int
    decreases certs.len(),
{
    if certs.len() == 0 {
        0
    } else if lex_lt(certs[0].0, address) {
        1 + cert_pos(certs.skip(1), address)
    } else {
        0
    }
}

/// A certificate table with an entry inserted at its position.
pub open spec fn cert_insert(
    certs: Seq<(Seq<u8>, Seq<u8>)>,
    address: Seq<u8>,
    signature: Seq<u8>,
) -> Seq<(Seq<u8>, Seq<u8>)> {
    certs.insert(cert_pos(certs, address), (address, signature))
}

/// Whether a certificate table is well formed: 20-byte addresses in strictly
/// ascending order, 65-byte signatures.
pub open spec fn certs_wf(certs: Seq<(Seq<u8>, Seq<u8>)>) -> bool {
    &&& forall|i: int|
        0 <= i < certs.len() ==> (#[trigger] certs[i]).0.len() == 20 && certs[i].1.len() == 65
    &&& forall|i: int| 0 < i < certs.len() ==> lex_lt(certs[i - 1].0, #[trigger] certs[i].0)
}

/// An address scan that stops at the first entry not below the address
/// computes the address's position.
proof fn lemma_cert_pos_from_prefix(certs: Seq<(Seq<u8>, Seq<u8>)>, address: Seq<u8>, i: int)
    requires
        0 <= i <= certs.len(),
        forall|j: int| 0 <= j < i ==> lex_lt((#[trigger] certs[j]).0, address),
        i < certs.len() ==> !lex_lt(certs[i].0, address),
    ensures
        cert_pos(certs, address) == i,
    decreases certs.len(),
{
    if i == 0 {
    } else {
        assert(lex_lt(certs[0].0, address));
        assert forall|j: int| 0 <= j < i - 1 implies lex_lt(
            (#[trigger] certs.skip(1)[j]).0,
            address,
        ) by {
            assert(certs.skip(1)[j] == certs[j + 1]);
        }
        if i - 1 < certs.skip(1).len() {
            assert(certs.skip(1)[i - 1] == certs[i]);
        }
        lemma_cert_pos_from_prefix(certs.skip(1), address, i - 1);
    }
}

/// Inserting a fresh certificate at its position keeps the table well
/// formed and makes the address found.
pub proof fn lemma_cert_insert_wf(
    certs: Seq<(Seq<u8>, Seq<u8>)>,
    address: Seq<u8>,
    signature: Seq<u8>,
)
    requires
        certs_wf(certs),
        address.len() == 20,
        signature.len() == 65,
        cert_find(certs, address) is None,
    ensures
        certs_wf(cert_insert(certs, address, signature)),
        cert_insert(certs, address, signature).len() == certs.len() + 1,
{
    let k = cert_pos(certs, address);

    lemma_cert_pos_props(certs, address);

    let out = certs.insert(k, (address, signature));

    lemma_cert_find_present(certs, address);

    if k < certs.len() {
        assert(certs[k].0 != address);
        lemma_lex_conn(certs[k].0, address);
        assert(lex_lt(address, certs[k].0));
    }

    assert forall|i: int| 0 < i < out.len() implies lex_lt(out[i - 1].0, #[trigger] out[i].0) by {
        if i < k {
            assert(out[i - 1] == certs[i - 1] && out[i] == certs[i]);
        } else if i == k {
            assert(out[i - 1] == certs[i - 1] && out[i] == (address, signature));
        } else if i == k + 1 {
            assert(out[i - 1] == (address, signature) && out[i] == certs[i - 1]);
        } else {
            assert(out[i - 1] == certs[i - 2] && out[i] == certs[i - 1]);
        }
    }
}

/// The properties of an address's position in a well-formed table: entries
/// before it are smaller, and the entry at it (if any) is not.
pub proof fn lemma_cert_pos_props(certs: Seq<(Seq<u8>, Seq<u8>)>, address: Seq<u8>)
    requires
        certs_wf(certs),
    ensures
        0 <= cert_pos(certs, address) <= certs.len(),
        forall|j: int|
            0 <= j < cert_pos(certs, address) ==> lex_lt((#[trigger] certs[j]).0, address),
        cert_pos(certs, address) < certs.len() ==> !lex_lt(
            certs[cert_pos(certs, address)].0,
            address,
        ),
    decreases certs.len(),
{
    if certs.len() > 0 && lex_lt(certs[0].0, address) {
        assert forall|i: int| 0 <= i < certs.skip(1).len() implies (#[trigger] certs.skip(
            1,
        )[i]).0.len() == 20 && certs.skip(1)[i].1.len() == 65 by {
            assert(certs.skip(1)[i] == certs[i + 1]);
        }
        assert forall|i: int| 0 < i < certs.skip(1).len() implies lex_lt(
            certs.skip(1)[i - 1].0,
            (#[trigger] certs.skip(1)[i]).0,
        ) by {
            assert(certs.skip(1)[i] == certs[i + 1]);
            assert(certs.skip(1)[i - 1] == certs[i]);
        }
        lemma_cert_pos_props(certs.skip(1), address);

        let k = cert_pos(certs, address);

        assert forall|j: int| 0 <= j < k implies lex_lt((#[trigger] certs[j]).0, address) by {
            if j > 0 {
                assert(certs.skip(1)[j - 1] == certs[j]);
            }
        }
        if k < certs.len() {
            assert(certs.skip(1)[k - 1] == certs[k]);
        }
    }
}

/// If the address is absent, every entry from its position on is strictly
/// above it; in particular the scan for the position misses it.
proof fn lemma_cert_find_present(certs: Seq<(Seq<u8>, Seq<u8>)>, address: Seq<u8>)
    requires
        certs_wf(certs),
        cert_find(certs, address) is None,
    ensures
        forall|j: int| 0 <= j < certs.len() ==> (#[trigger] certs[j]).0 != address,
    decreases certs.len(),
{
    if certs.len() > 0 {
        assert forall|i: int| 0 <= i < certs.skip(1).len() implies (#[trigger] certs.skip(
            1,
        )[i]).0.len() == 20 && certs.skip(1)[i].1.len() == 65 by {
            assert(certs.skip(1)[i] == certs[i + 1]);
        }
        assert forall|i: int| 0 < i < certs.skip(1).len() implies lex_lt(
            certs.skip(1)[i - 1].0,
            (#[trigger] certs.skip(1)[i]).0,
        ) by {
            assert(certs.skip(1)[i] == certs[i + 1]);
            assert(certs.skip(1)[i - 1] == certs[i]);
        }
        lemma_cert_find_present(certs.skip(1), address);

        assert forall|j: int| 0 <= j < certs.len() implies (#[trigger] certs[j]).0 != address by {
            if j > 0 {
                assert(certs.skip(1)[j - 1] == certs[j]);
            }
        }
    }
}

/// The wire encoding of a certificate table: address then signature, entry
/// by entry.
#[verifier::opaque]
pub open spec fn certs_ser(certs: Seq<(Seq<u8>, Seq<u8>)>) -> Seq<u8>
    decreases certs.len(),
{
    if certs.len() == 0 {
        Seq::empty()
    } else {
        certs_ser(certs.drop_last()) + certs.last().0 + certs.last().1
    }
}

/// Decodes `count` certificate entries starting at `at`, requiring each
/// address to exceed `prev`.
pub open spec fn certs_de(data: Seq<u8>, at: int, count: int, prev: Option<Seq<u8>>) -> Option<
    Seq<(Seq<u8>, Seq<u8>)>,
>
    decreases count,
{
    if count <= 0 {
        Some(Seq::empty())
    } else if at + 85 > data.len() {
        None
    } else {
        let address = data.subrange(at, at + 20);
        if prev matches Some(p) && !lex_lt(p, address) {
            None
        } else {
            match certs_de(data, at + 85, count - 1, Some(address)) {
                Some(rest) => Some(seq![(address, data.subrange(at + 20, at + 85))] + rest),
                None => None,
            }
        }
    }
}

/// Whether a proof state model can be written out: its domain state must be
/// a checkpoint and its certificate count must fit a length frame.
pub open spec fn ps_serializable<S: State>(v: ProofStateV<S::V>) -> bool {
    &&& S::serializable(v.state)
    &&& v.certs.len() <= u32::MAX
}

/// The wire encoding of a proof state: identifier, nonce, the two player
/// addresses, the certificate count and table, then the domain state, which
/// is terminal and carries its own length.
pub open spec fn ps_ser<S: State>(v: ProofStateV<S::V>) -> Seq<u8> {
    v.id + v.nonce + v.players[0] + v.players[1] + codec::u32_le(v.certs.len() as u32)
        + certs_ser(v.certs) + S::ser(v.state)
}

/// The proof state a buffer decodes to, if any.
pub open spec fn ps_de<S: State>(data: Seq<u8>) -> Option<ProofStateV<S::V>> {
    match S::ID::de_len(data, 0) {
        Some(e1) => match S::Nonce::de_len(data, e1) {
            Some(e2) => if e2 + 44 <= data.len() {
                let count = codec::le_u32(data.subrange(e2 + 40, e2 + 44));
                match certs_de(data, e2 + 44, count, None) {
                    Some(certs) => match S::de(data.skip(e2 + 44 + 85 * count)) {
                        Some(sv) => Some(
                            ProofStateV {
                                id: data.subrange(0, e1),
                                nonce: data.subrange(e1, e2),
                                players: seq![
                                    data.subrange(e2, e2 + 20),
                                    data.subrange(e2 + 20, e2 + 40),
                                ],
                                certs: certs,
                                state: sv,
                            },
                        ),
                        None => None,
                    },
                    None => None,
                }
            } else {
                None
            },
            None => None,
        },
        None => None,
    }
}

/// Whether a proof state model is well formed.
pub open spec fn ps_wf<S: State>(v: ProofStateV<S::V>) -> bool {
    &&& v.players.len() == 2
    &&& v.players[0].len() == 20
    &&& v.players[1].len() == 20
    &&& certs_wf(v.certs)
}

/// The player an address identifies: one of the two players directly, or
/// the player whose address the certificate's signature recovers to over the
/// domain's challenge message.
pub open spec fn ps_player_of<S: State>(v: ProofStateV<S::V>, address: Seq<u8>) -> Option<Player> {
    if v.players[0] == address {
        Some(0 as Player)
    } else if v.players[1] == address {
        Some(1 as Player)
    } else {
        match cert_find(v.certs, address) {
            Some(signature) => match recover_of(S::challenge_of(address), signature) {
                Some(signer) => if v.players[0] == signer {
                    Some(0 as Player)
                } else if v.players[1] == signer {
                    Some(1 as Player)
                } else {
                    None
                },
                None => None,
            },
            None => None,
        }
    }
}

/// The state a proof action leads to, or `None` if the action is rejected.
///
/// A `Play` is delegated to the domain; a `Certify` requires an acting
/// player, a fresh address, and a signature over the domain's challenge that
/// recovers to that player's address.  Either way the nonce advances.
pub open spec fn ps_apply<S: State>(v: ProofStateV<S::V>, a: ProofActionV) -> Option<
    ProofStateV<S::V>,
> {
    if a.player matches Some(p) && p >= 2 {
        None
    } else {
        match a.action {
            PlayerActionV::Play(bytes) => match S::app(v.state, a.player, bytes) {
                Some(s2) => Some(
                    ProofStateV { nonce: S::Nonce::next_of(v.nonce), state: s2, ..v },
                ),
                None => None,
            },
            PlayerActionV::Certify { address, signature } => {
                if a.player is None {
                    None
                } else if cert_find(v.certs, address) is Some {
                    None
                } else if recover_of(S::challenge_of(address), signature) == Some(
                    v.players[a.player.unwrap() as int],
                ) {
                    Some(
                        ProofStateV {
                            nonce: S::Nonce::next_of(v.nonce),
                            certs: cert_insert(v.certs, address, signature),
                            ..v
                        },
                    )
                } else {
                    None
                }
            },
        }
    }
}

/// The state reached by replaying a sequence of actions, or `None` if one
/// of them is rejected.
pub open spec fn ps_replay<S: State>(
    v: ProofStateV<S::V>,
    actions: Seq<ProofActionV>,
) -> Option<ProofStateV<S::V>>
    decreases actions.len(),
{
    if actions.len() == 0 {
        Some(v)
    } else {
        match ps_apply::<S>(v, actions[0]) {
            Some(v2) => ps_replay::<S>(v2, actions.skip(1)),
            None => None,
        }
    }
}

/// Replaying one more action continues the replay of the prefix.
pub proof fn lemma_ps_replay_snoc<S: State>(
    v: ProofStateV<S::V>,
    actions: Seq<ProofActionV>,
    a: ProofActionV,
)
    ensures
        ps_replay::<S>(v, actions.push(a)) == (match ps_replay::<S>(v, actions) {
            Some(v2) => ps_apply::<S>(v2, a),
            None => None,
        }),
    decreases actions.len(),
{
    if actions.len() == 0 {
        assert(actions.push(a)[0] == a);
        assert(actions.push(a).skip(1) =~= Seq::<ProofActionV>::empty());
        assert(ps_replay::<S>(v, actions) == Some(v));
        match ps_apply::<S>(v, a) {
            Some(v2) => {
                assert(ps_replay::<S>(v2, actions.push(a).skip(1)) == Some(v2));
                assert(ps_replay::<S>(v, actions.push(a)) == Some(v2));
            },
            None => {
                assert(ps_replay::<S>(v, actions.push(a)) is None);
            },
        }
    } else {
        assert(actions.push(a)[0] == actions[0]);
        assert(actions.push(a).skip(1) =~= actions.skip(1).push(a));
        match ps_apply::<S>(v, actions[0]) {
            Some(v2) => {
                lemma_ps_replay_snoc::<S>(v2, actions.skip(1), a);
                assert(ps_replay::<S>(v, actions.push(a)) == ps_replay::<S>(
                    v2,
                    actions.skip(1).push(a),
                ));
                assert(ps_replay::<S>(v, actions) == ps_replay::<S>(v2, actions.skip(1)));
            },
            None => {
                assert(ps_replay::<S>(v, actions.push(a)) is None);
                assert(ps_replay::<S>(v, actions) is None);
            },
        }
    }
}

/// Replay splits over concatenation.
pub proof fn lemma_ps_replay_concat<S: State>(
    v: ProofStateV<S::V>,
    a: Seq<ProofActionV>,
    b: Seq<ProofActionV>,
)
    ensures
        ps_replay::<S>(v, a + b) == (match ps_replay::<S>(v, a) {
            Some(w) => ps_replay::<S>(w, b),
            None => None,
        }),
    decreases a.len(),
{
    if a.len() == 0 {
        assert(a + b =~= b);
    } else {
        assert((a + b)[0] == a[0]);
        assert((a + b).skip(1) =~= a.skip(1) + b);
        match ps_apply::<S>(v, a[0]) {
            Some(v2) => {
                lemma_ps_replay_concat::<S>(v2, a.skip(1), b);
            },
            None => {},
        }
    }
}

/// A prefix of a successful replay succeeds.
pub proof fn lemma_ps_replay_prefix<S: State>(
    v: ProofStateV<S::V>,
    s: Seq<ProofActionV>,
    k: int,
)
    requires
        0 <= k <= s.len(),
        ps_replay::<S>(v, s) is Some,
    ensures
        ps_replay::<S>(v, s.take(k)) is Some,
{
    assert(s.take(k) + s.skip(k) =~= s);
    lemma_ps_replay_concat::<S>(v, s.take(k), s.skip(k));
}

/// The position one past the last action whose replayed state is a
/// checkpoint, or zero if none is.
pub open spec fn last_checkpoint<S: State>(
    v: ProofStateV<S::V>,
    actions: Seq<ProofActionV>,
) -> int
    decreases actions.len(),
{
    if actions.len() == 0 {
        0
    } else if ps_replay::<S>(v, actions) matches Some(r) && ps_serializable::<S>(r) {
        actions.len() as int
    } else {
        last_checkpoint::<S>(v, actions.drop_last())
    }
}

/// Every position after the last checkpoint either fails to replay or is
/// not a checkpoint; the position itself, if positive, is one.
pub proof fn lemma_last_checkpoint_max<S: State>(v: ProofStateV<S::V>, s: Seq<ProofActionV>)
    ensures
        0 <= last_checkpoint::<S>(v, s) <= s.len(),
        last_checkpoint::<S>(v, s) > 0 ==> (ps_replay::<S>(
            v,
            s.take(last_checkpoint::<S>(v, s)),
        ) matches Some(w) && ps_serializable::<S>(w)),
        forall|k: int|
            last_checkpoint::<S>(v, s) < k <= s.len() ==> !(#[trigger] ps_replay::<S>(
                v,
                s.take(k),
            ) matches Some(w) && ps_serializable::<S>(w)),
    decreases s.len(),
{
    if s.len() == 0 {
    } else if ps_replay::<S>(v, s) matches Some(r) && ps_serializable::<S>(r) {
        assert(s.take(s.len() as int) =~= s);
    } else {
        lemma_last_checkpoint_max::<S>(v, s.drop_last());

        let c = last_checkpoint::<S>(v, s);

        assert forall|k: int| c < k <= s.len() implies !(#[trigger] ps_replay::<S>(
            v,
            s.take(k),
        ) matches Some(w) && ps_serializable::<S>(w)) by {
            if k < s.len() {
                assert(s.drop_last().take(k) =~= s.take(k));
            } else {
                assert(s.take(k) =~= s);
            }
        }

        if c > 0 {
            assert(s.drop_last().take(c) =~= s.take(c));
        }
    }
}

/// The class on which a proof action is rejected: a `Play` takes the
/// domain's class, everything else that fails here is hard.
pub open spec fn ps_class<S: State>(v: ProofStateV<S::V>, a: ProofActionV) -> Error {
    if a.player matches Some(p) && p >= 2 {
        Error::Hard
    } else {
        match a.action {
            PlayerActionV::Play(bytes) => S::app_class(v.state, a.player, bytes),
            PlayerActionV::Certify { .. } => Error::Hard,
        }
    }
}

/// A snapshot of the game.
pub struct ProofState<S: State> {
    pub(crate) id: S::ID,
    pub(crate) nonce: S::Nonce,
    pub(crate) players: Vec<Vec<u8>>,
    pub(crate) signatures: Vec<(Vec<u8>, Vec<u8>)>,
    pub(crate) state: S,
}

impl<S: State> View for ProofState<S> {
    type V = ProofStateV<S::V>;

    open(crate) spec fn view(&self) -> ProofStateV<S::V> {
        ProofStateV {
            id: self.id.ser(),
            nonce: self.nonce.ser(),
            players: self.players@.map_values(|p: Vec<u8>| p@),
            certs: self.signatures@.map_values(|c: (Vec<u8>, Vec<u8>)| (c.0@, c.1@)),
            state: self.state.model(),
        }
    }
}

/// Finds the entry that carries exactly this address.
fn cert_lookup(signatures: &Vec<(Vec<u8>, Vec<u8>)>, address: &Vec<u8>) -> (r: Option<usize>)
    ensures
        ({
            let certs = signatures@.map_values(|c: (Vec<u8>, Vec<u8>)| (c.0@, c.1@));
            match r {
                Some(ix) => ix < certs.len() && certs[ix as int].0 == address@ && cert_find(
                    certs,
                    address@,
                ) == Some(certs[ix as int].1),
                None => cert_find(certs, address@) is None,
            }
        }),
{
    let ghost certs = signatures@.map_values(|c: (Vec<u8>, Vec<u8>)| (c.0@, c.1@));
    let n = signatures.len();
    let mut i: usize = 0;

    proof {
        assert(certs.skip(0) =~= certs);
    }

    while i < n
        invariant
            i <= n,
            n == certs.len(),
            certs == signatures@.map_values(|c: (Vec<u8>, Vec<u8>)| (c.0@, c.1@)),
            cert_find(certs, address@) == cert_find(certs.skip(i as int), address@),
        decreases n - i,
    {
        proof {
            assert(certs.skip(i as int)[0] == certs[i as int]);
        }

        if codec::bytes_eq(signatures[i].0.as_slice(), address.as_slice()) {
            return Some(i);
        }

        i = i + 1;

        proof {
            assert(certs.skip(i - 1).skip(1) =~= certs.skip(i as int));
        }
    }

    None
}

/// Finds the position at which the address belongs in the ascending table.
fn cert_lower_bound(signatures: &Vec<(Vec<u8>, Vec<u8>)>, address: &Vec<u8>) -> (r: usize)
    requires
        certs_wf(signatures@.map_values(|c: (Vec<u8>, Vec<u8>)| (c.0@, c.1@))),
    ensures
        r == cert_pos(signatures@.map_values(|c: (Vec<u8>, Vec<u8>)| (c.0@, c.1@)), address@),
        r <= signatures@.len(),
{
    let ghost certs = signatures@.map_values(|c: (Vec<u8>, Vec<u8>)| (c.0@, c.1@));
    let n = signatures.len();
    let mut i: usize = 0;

    while i < n
        invariant
            i <= n,
            n == certs.len(),
            certs == signatures@.map_values(|c: (Vec<u8>, Vec<u8>)| (c.0@, c.1@)),
            forall|j: int| 0 <= j < i ==> lex_lt((#[trigger] certs[j]).0, address@),
        decreases n - i,
    {
        if !codec::bytes_lt(signatures[i].0.as_slice(), address.as_slice()) {
            proof {
                lemma_cert_pos_from_prefix(certs, address@, i as int);
            }
            return i;
        }

        i = i + 1;
    }

    proof {
        lemma_cert_pos_from_prefix(certs, address@, n as int);
    }

    n
}

/// Reads `count` certificate entries starting at `at`, each address
/// strictly above `prev` and the one before it.
#[verifier::rlimit(100)]
fn read_certs(data: &[u8], at: usize, count: usize, prev: Option<&Vec<u8>>) -> (r: Result<
    (Vec<(Vec<u8>, Vec<u8>)>, usize),
    Error,
>)
    requires
        at <= data@.len(),
    ensures
        ({
            let prevg = match prev {
                Some(p) => Some(p@),
                None => None,
            };
            match r {
                Ok((v, end)) => ({
                    let certs = v@.map_values(|c: (Vec<u8>, Vec<u8>)| (c.0@, c.1@));
                    &&& certs_de(data@, at as int, count as int, prevg) == Some(certs)
                    &&& certs_wf(certs)
                    &&& certs.len() == count
                    &&& end == at + 85 * count
                    &&& end <= data@.len()
                    &&& certs_ser(certs) == data@.subrange(at as int, end as int)
                    &&& (count > 0 ==> certs[0].0 == data@.subrange(at as int, at + 20))
                }),
                Err(e) => certs_de(data@, at as int, count as int, prevg) is None && e
                    == Error::Hard,
            }
        }),
    decreases count,
{
    let dlen: usize = data.len();

    if count == 0 {
        let empty: Vec<(Vec<u8>, Vec<u8>)> = Vec::new();

        proof {
            reveal(certs_ser);
            let certs = empty@.map_values(|c: (Vec<u8>, Vec<u8>)| (c.0@, c.1@));
            assert(certs =~= Seq::<(Seq<u8>, Seq<u8>)>::empty());
            assert(certs_ser(certs) =~= data@.subrange(at as int, at as int));
        }

        return Ok((empty, at));
    }

    let address = codec::read_bytes(data, at, 20)?;
    let signature = match codec::read_bytes(data, at + 20, 65) {
        Ok(s) => s,
        Err(e) => {
            return Err(e);
        },
    };

    if let Some(p) = prev {
        if !codec::bytes_lt(p.as_slice(), address.as_slice()) {
            return Err(Error::Hard);
        }
    }

    let (rest, end) = read_certs(data, at + 85, count - 1, Some(&address))?;

    let ghost rest_view = rest@;
    let mut v = rest;
    v.insert(0, (address, signature));

    proof {
        assert(v@.skip(1) =~= rest_view);

        let certs = v@.map_values(|c: (Vec<u8>, Vec<u8>)| (c.0@, c.1@));
        let rest_certs = rest_view.map_values(|c: (Vec<u8>, Vec<u8>)| (c.0@, c.1@));
        let entry = (data@.subrange(at as int, at + 20), data@.subrange(at + 20, at + 85));
        let prevg = match prev {
            Some(p) => Some(p@),
            None => None,
        };

        assert(certs =~= seq![entry] + rest_certs);

        lemma_read_certs_step(
            data@,
            at as int,
            count as int,
            prevg,
            certs,
            rest_certs,
            end as int,
        );
    }

    Ok((v, end))
}

/// Joins one decoded certificate entry with the decode of the entries after
/// it.
proof fn lemma_read_certs_step(
    data: Seq<u8>,
    at: int,
    count: int,
    prevg: Option<Seq<u8>>,
    certs: Seq<(Seq<u8>, Seq<u8>)>,
    rest_certs: Seq<(Seq<u8>, Seq<u8>)>,
    end: int,
)
    requires
        0 <= at,
        at + 85 <= data.len(),
        count >= 1,
        prevg matches Some(p) ==> lex_lt(p, data.subrange(at, at + 20)),
        certs_de(data, at + 85, count - 1, Some(data.subrange(at, at + 20))) == Some(rest_certs),
        certs_wf(rest_certs),
        rest_certs.len() == count - 1,
        end == at + 85 * count,
        end <= data.len(),
        certs_ser(rest_certs) == data.subrange(at + 85, end),
        count - 1 > 0 ==> rest_certs[0].0 == data.subrange(at + 85, at + 105),
        certs == seq![
            (data.subrange(at, at + 20), data.subrange(at + 20, at + 85)),
        ] + rest_certs,
    ensures
        certs_de(data, at, count, prevg) == Some(certs),
        certs_wf(certs),
        certs.len() == count,
        certs_ser(certs) == data.subrange(at, end),
        certs[0].0 == data.subrange(at, at + 20),
{
    assert(certs.skip(1) =~= rest_certs);

    lemma_certs_ser_shift(certs);
    assert(certs_ser(certs) =~= data.subrange(at, end));

    assert forall|i: int| 0 < i < certs.len() implies lex_lt(
        certs[i - 1].0,
        (#[trigger] certs[i]).0,
    ) by {
        if i > 1 {
            assert(certs[i - 1] == rest_certs[i - 2] && certs[i] == rest_certs[i - 1]);
        } else {
            assert(certs[1] == rest_certs[0]);
        }
    }
}

/// In a non-empty table the encoding is the first entry followed by the
/// encoding of the rest.
proof fn lemma_certs_ser_shift(s: Seq<(Seq<u8>, Seq<u8>)>)
    requires
        s.len() > 0,
    ensures
        certs_ser(s) == s[0].0 + s[0].1 + certs_ser(s.skip(1)),
    decreases s.len(),
{
    reveal(certs_ser);
    if s.len() == 1 {
        assert(s.drop_last() =~= Seq::<(Seq<u8>, Seq<u8>)>::empty());
        assert(s.skip(1) =~= Seq::<(Seq<u8>, Seq<u8>)>::empty());
        assert(certs_ser(s) =~= s[0].0 + s[0].1 + certs_ser(s.skip(1)));
    } else {
        lemma_certs_ser_shift(s.drop_last());
        assert(s.drop_last()[0] == s[0]);
        assert(s.drop_last().skip(1) =~= s.skip(1).drop_last());
        assert(s.skip(1).last() == s.last());
        assert(certs_ser(s) =~= s[0].0 + s[0].1 + certs_ser(s.skip(1)));
    }
}

impl<S: State> ProofState<S> {
    /// Whether the snapshot is well formed.
    pub open(crate) spec fn wf(&self) -> bool {
        &&& self.id.wf()
        &&& self.nonce.wf()
        &&& self.state.wf()
        &&& ps_wf::<S>(self@)
    }

    /// A well-formed snapshot has a well-formed model.
    pub proof fn lemma_wf(&self)
        requires
            self.wf(),
        ensures
            ps_wf::<S>(self@),
    {
    }

    /// Constructs the initial snapshot of a match.  The initial domain state
    /// must be a checkpoint, and the addresses must be 20 bytes long.
    pub fn new(id: S::ID, players: Vec<Vec<u8>>, state: S) -> (r: Result<ProofState<S>, Error>)
        requires
            id.wf(),
            state.wf(),
        ensures
            match r {
                Ok(s) => {
                    &&& players@.len() == 2
                    &&& players@[0]@.len() == 20
                    &&& players@[1]@.len() == 20
                    &&& S::serializable(state.model())
                    &&& s.wf()
                    &&& s@ == (ProofStateV {
                        id: id.ser(),
                        nonce: S::Nonce::initial_of(),
                        players: seq![players@[0]@, players@[1]@],
                        certs: Seq::empty(),
                        state: state.model(),
                    })
                },
                Err(e) => e == Error::Hard && (players@.len() != 2 || players@[0]@.len() != 20
                    || players@[1]@.len() != 20 || !S::serializable(state.model())),
            },
    {
        if players.len() != 2 {
            return Err(Error::Hard);
        }

        if players[0].len() != 20 || players[1].len() != 20 {
            return Err(Error::Hard);
        }

        if !state.is_serializable() {
            return Err(Error::Hard);
        }

        let r = ProofState {
            id,
            nonce: S::Nonce::initial(),
            players,
            signatures: Vec::new(),
            state,
        };

        proof {
            assert(r@.players =~= seq![r.players@[0]@, r.players@[1]@]);
            assert(r@.certs =~= Seq::<(Seq<u8>, Seq<u8>)>::empty());
        }

        Ok(r)
    }

    /// The domain state inside the snapshot, taken out of it.
    pub fn into_state(self) -> (r: S)
        ensures
            r.model() == self@.state,
            self.wf() ==> r.wf(),
    {
        self.state
    }

    /// The domain state inside the snapshot.
    pub fn state(&self) -> (r: &S)
        ensures
            r.model() == self@.state,
            self.wf() ==> r.wf(),
    {
        &self.state
    }

    /// The player an address identifies, if any.
    pub fn player(&self, address: &Vec<u8>) -> (r: Option<Player>)
        requires
            self.wf(),
            address@.len() == 20,
        ensures
            r == ps_player_of::<S>(self@, address@),
    {
        if codec::bytes_eq(self.players[0].as_slice(), address.as_slice()) {
            return Some(0);
        }

        if codec::bytes_eq(self.players[1].as_slice(), address.as_slice()) {
            return Some(1);
        }

        let found = cert_lookup(&self.signatures, address);

        match found {
            Some(ix) => {
                let message = S::challenge(address);

                match crypto::recover(message.as_slice(), self.signatures[ix].1.as_slice()) {
                    Ok(signer) => {
                        if codec::bytes_eq(self.players[0].as_slice(), signer.as_slice()) {
                            Some(0)
                        } else if codec::bytes_eq(self.players[1].as_slice(), signer.as_slice()) {
                            Some(1)
                        } else {
                            None
                        }
                    },
                    Err(_) => None,
                }
            },
            None => None,
        }
    }

    /// Writes the snapshot's encoding, or `None` if the domain state is not
    /// a checkpoint or the certificate table cannot be framed.
    pub fn serialize(&self) -> (r: Option<Vec<u8>>)
        requires
            self.wf(),
        ensures
            match r {
                Some(b) => ps_serializable::<S>(self@) && b@ == ps_ser::<S>(self@),
                None => !ps_serializable::<S>(self@),
            },
    {
        let state_bytes = match self.state.serialize() {
            Some(b) => b,
            None => {
                return None;
            },
        };

        let mut out = self.id.serialize();

        let nonce_bytes = self.nonce.serialize();
        codec::write_bytes(&mut out, nonce_bytes.as_slice());
        codec::write_bytes(&mut out, self.players[0].as_slice());
        codec::write_bytes(&mut out, self.players[1].as_slice());

        match codec::write_u32_usize(&mut out, self.signatures.len()) {
            Ok(()) => {},
            Err(_) => {
                return None;
            },
        }

        let ghost prefix = self@.id + self@.nonce + self@.players[0] + self@.players[1]
            + codec::u32_le(self@.certs.len() as u32);

        proof {
            reveal(certs_ser);
            assert(out@ =~= prefix);
            assert(self@.certs.subrange(0, 0) =~= Seq::<(Seq<u8>, Seq<u8>)>::empty());
            assert(out@ =~= prefix + certs_ser(self@.certs.subrange(0, 0)));
        }

        let n = self.signatures.len();
        let mut i: usize = 0;

        while i < n
            invariant
                i <= n,
                n == self@.certs.len(),
                self.wf(),
                out@ == prefix + certs_ser(self@.certs.subrange(0, i as int)),
            decreases n - i,
        {
            codec::write_bytes(&mut out, self.signatures[i].0.as_slice());
            codec::write_bytes(&mut out, self.signatures[i].1.as_slice());

            i = i + 1;

            proof {
                reveal(certs_ser);
                let certs = self@.certs;
                assert(certs.subrange(0, i as int).drop_last() =~= certs.subrange(0, i - 1));
                assert(certs.subrange(0, i as int).last() == certs[i - 1]);
                assert(out@ =~= prefix + certs_ser(certs.subrange(0, i as int)));
            }
        }

        codec::write_bytes(&mut out, state_bytes.as_slice());

        proof {
            assert(self@.certs.subrange(0, n as int) =~= self@.certs);
            assert(out@ =~= ps_ser::<S>(self@));
        }

        Some(out)
    }

    /// Decodes a snapshot from the whole of `data`.  A decoded snapshot is
    /// well formed and re-encodes to exactly `data`.
    #[verifier::rlimit(100)]
    pub fn deserialize(data: &[u8]) -> (r: Result<ProofState<S>, Error>)
        ensures
            match r {
                Ok(s) => {
                    &&& s.wf()
                    &&& ps_de::<S>(data@) == Some(s@)
                    &&& ps_serializable::<S>(s@)
                    &&& ps_ser::<S>(s@) == data@
                },
                Err(e) => ps_de::<S>(data@) is None && e == Error::Hard,
            },
    {
        let dlen: usize = data.len();

        let (id, e1) = S::ID::deserialize(data, 0)?;
        let (nonce, e2) = S::Nonce::deserialize(data, e1)?;

        if dlen < 44 || e2 > dlen - 44 {
            return Err(Error::Hard);
        }

        let p0 = codec::read_bytes(data, e2, 20)?;
        let p1 = codec::read_bytes(data, e2 + 20, 20)?;
        let count = codec::read_u32_usize(data, e2 + 40)?;

        proof {
            codec::lemma_u32_le(count as u32);
        }

        let (sigs, end) = read_certs(data, e2 + 44, count, None)?;

        let state = S::deserialize(&data[end..dlen])?;

        let mut players: Vec<Vec<u8>> = Vec::new();
        players.push(p0);
        players.push(p1);

        let s = ProofState { id, nonce, players, signatures: sigs, state };

        proof {
            S::lemma_ser_de(data@.subrange(end as int, dlen as int));
            assert(data@.subrange(end as int, dlen as int) =~= data@.skip(end as int));

            let v = ps_de::<S>(data@).unwrap();
            assert(s@.players =~= v.players);
            assert(s@ =~= v);

            assert(ps_ser::<S>(s@) =~= data@);
        }

        Ok(s)
    }

    /// An owned copy of a checkpoint snapshot.
    pub fn dup(&self) -> (r: Self)
        requires
            self.wf(),
            S::serializable(self@.state),
        ensures
            r.wf(),
            r@ == self@,
    {
        let mut players: Vec<Vec<u8>> = Vec::new();
        players.push(codec::dup_bytes(&self.players[0]));
        players.push(codec::dup_bytes(&self.players[1]));

        let n = self.signatures.len();
        let mut signatures: Vec<(Vec<u8>, Vec<u8>)> = Vec::new();
        let mut i: usize = 0;

        while i < n
            invariant
                i <= n,
                n == self.signatures@.len(),
                signatures@.len() == i,
                forall|j: int|
                    0 <= j < i ==> (#[trigger] signatures@[j]).0@ == self.signatures@[j].0@
                        && signatures@[j].1@ == self.signatures@[j].1@,
            decreases n - i,
        {
            let a = codec::dup_bytes(&self.signatures[i].0);
            let b = codec::dup_bytes(&self.signatures[i].1);
            signatures.push((a, b));
            i = i + 1;
        }

        let r = ProofState {
            id: self.id.dup(),
            nonce: self.nonce.dup(),
            players,
            signatures,
            state: self.state.dup(),
        };

        proof {
            assert(r@.players =~= self@.players);
            assert(r@.certs =~= self@.certs);
            assert(r@ =~= self@);
        }

        r
    }

    /// Whether the snapshot can be written out.
    pub fn is_serializable(&self) -> (r: bool)
        requires
            self.wf(),
        ensures
            r == ps_serializable::<S>(self@),
    {
        self.state.is_serializable() && self.signatures.len() <= u32::MAX as usize
    }

    /// Whether two snapshots identify the same match.
    pub fn same_id(&self, other: &Self) -> (r: bool)
        requires
            self.wf(),
            other.wf(),
        ensures
            r == (self@.id == other@.id),
    {
        self.id.same_as(&other.id)
    }

    /// Whether two snapshots name the same players.
    pub fn same_players(&self, other: &Self) -> (r: bool)
        requires
            self.wf(),
            other.wf(),
        ensures
            r == (self@.players == other@.players),
    {
        let r = codec::bytes_eq(self.players[0].as_slice(), other.players[0].as_slice())
            && codec::bytes_eq(self.players[1].as_slice(), other.players[1].as_slice());

        proof {
            if r {
                assert(self@.players =~= other@.players);
            }
        }

        r
    }

    /// Applies one proof action to the snapshot.  On an error the snapshot
    /// is unchanged.
    pub fn apply(&mut self, action: &ProofAction<S::Action>) -> (r: Result<Vec<S::Event>, Error>)
        requires
            old(self).wf(),
            action.wf(),
        ensures
            final(self).wf(),
            match r {
                Ok(_) => ps_apply::<S>(old(self)@, action@) == Some(final(self)@),
                Err(e) => final(self)@ == old(self)@ && ps_apply::<S>(old(self)@, action@)
                    is None && e == ps_class::<S>(old(self)@, action@),
            },
    {
        if let Some(p) = action.player {
            if p >= 2 {
                return Err(Error::Hard);
            }
        }

        let events: Vec<S::Event> = match &action.action {
            PlayerAction::Play(a) => {
                let applied = self.state.apply(action.player, a);

                match applied {
                    Ok(events) => {
                        proof {
                            assert(ps_apply::<S>(old(self)@, action@) == Some(
                                ProofStateV {
                                    nonce: S::Nonce::next_of(old(self)@.nonce),
                                    state: self.state.model(),
                                    ..old(self)@
                                },
                            ));
                        }
                        events
                    },
                    Err(e) => {
                        proof {
                            assert(final(self)@ =~= old(self)@);
                        }
                        return Err(e);
                    },
                }
            },
            PlayerAction::Certify { address, signature } => {
                let p = match action.player {
                    Some(p) => p,
                    None => {
                        return Err(Error::Hard);
                    },
                };

                if let Some(_) = cert_lookup(&self.signatures, address) {
                    return Err(Error::Hard);
                }

                let message = S::challenge(address);

                let signer = match crypto::recover(message.as_slice(), signature.as_slice()) {
                    Ok(signer) => signer,
                    Err(_) => {
                        return Err(Error::Hard);
                    },
                };

                if !codec::bytes_eq(self.players[p as usize].as_slice(), signer.as_slice()) {
                    return Err(Error::Hard);
                }

                let insert_at = cert_lower_bound(&self.signatures, address);

                let a2 = codec::dup_bytes(address);
                let s2 = codec::dup_bytes(signature);

                self.signatures.insert(insert_at, (a2, s2));

                proof {
                    let certs0 = old(self)@.certs;
                    assert(self@.certs =~= certs0.insert(
                        insert_at as int,
                        (address@, signature@),
                    ));
                    lemma_cert_insert_wf(certs0, address@, signature@);
                }

                Vec::new()
            },
        };

        self.nonce = self.nonce.next();

        proof {
            let expected = ps_apply::<S>(old(self)@, action@).unwrap();
            assert(self@ =~= expected);
        }

        Ok(events)
    }
}

} // verus!
