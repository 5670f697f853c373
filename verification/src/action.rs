//! Signed log entries: a `ProofAction` pairs an acting player with a
//! `PlayerAction`.
//!
//! Wire format: one byte for the player (0 for the owner, `1 + player`
//! otherwise), one byte for the variant (0 for `Play`, 1 for `Certify`),
//! then the variant's body.  A `Play` body is the domain action's encoding;
//! a `Certify` body is a 20-byte address followed by a 65-byte signature.

use vstd::prelude::*;
use crate::{Action, Error, Player};
use crate::codec;

verus! {

/// The abstract model of a `PlayerAction`.
pub enum PlayerActionV {
    Play(Seq<u8>),
    Certify { address: Seq<u8>, signature: Seq<u8> },
}

/// The abstract model of a `ProofAction`.
pub struct ProofActionV {
    pub player: Option<Player>,
    pub action: PlayerActionV,
}

/// An action taken by a player or the owner.
pub enum PlayerAction<A: Action> {
    /// A domain action, forwarded to the game.
    Play(A),
    /// A player authorizes a subkey: the signature is over the domain's
    /// challenge message for the address.
    Certify { address: Vec<u8>, signature: Vec<u8> },
}

/// An action attributed to a player (or to the owner, `player == None`).
pub struct ProofAction<A: Action> {
    /// The acting player, or `None` for the owner.
    pub player: Option<Player>,
    /// The action itself.
    pub action: PlayerAction<A>,
}

impl<A: Action> View for ProofAction<A> {
    type V = ProofActionV;

    open spec fn view(&self) -> ProofActionV {
        ProofActionV {
            player: self.player,
            action: match self.action {
                PlayerAction::Play(a) => PlayerActionV::Play(a.ser()),
                PlayerAction::Certify { address, signature } => (PlayerActionV::Certify {
                    address: address@,
                    signature: signature@,
                }),
            },
        }
    }
}

/// The encoding of a proof action.
pub open spec fn pa_ser(v: ProofActionV) -> Seq<u8> {
    seq![
        (match v.player {
            None => 0u8,
            Some(p) => (p + 1) as u8,
        }),
    ] + match v.action {
        PlayerActionV::Play(b) => seq![0u8] + b,
        PlayerActionV::Certify { address, signature } => seq![1u8] + address + signature,
    }
}

/// Whether a proof action model is well formed against the domain's action
/// encoding, with its encoding small enough to frame.
pub open spec fn pa_wf<A: Action>(v: ProofActionV) -> bool {
    &&& match v.player {
        None => true,
        Some(p) => p < 255,
    }
    &&& match v.action {
        PlayerActionV::Play(b) => A::valid(b),
        PlayerActionV::Certify { address, signature } => address.len() == 20 && signature.len()
            == 65,
    }
    &&& pa_ser(v).len() <= u32::MAX
}

/// The proof action a buffer decodes to, if any.
pub open spec fn pa_de<A: Action>(data: Seq<u8>) -> Option<ProofActionV> {
    if data.len() < 2 {
        None
    } else {
        let player = if data[0] == 0 {
            None
        } else {
            Some((data[0] - 1) as u8)
        };
        if data[1] == 0 {
            if A::valid(data.skip(2)) {
                Some(ProofActionV { player, action: PlayerActionV::Play(data.skip(2)) })
            } else {
                None
            }
        } else if data[1] == 1 {
            if data.len() == 2 + 20 + 65 {
                Some(
                    ProofActionV {
                        player,
                        action: PlayerActionV::Certify {
                            address: data.subrange(2, 22),
                            signature: data.subrange(22, 87),
                        },
                    },
                )
            } else {
                None
            }
        } else {
            None
        }
    }
}

/// Encoding a well-formed proof action and decoding the result gives the
/// action back.
pub proof fn lemma_pa_de_ser<A: Action>(v: ProofActionV)
    requires
        pa_wf::<A>(v),
    ensures
        pa_de::<A>(pa_ser(v)) == Some(v),
{
    let data = pa_ser(v);

    match v.action {
        PlayerActionV::Play(b) => {
            assert(data.skip(2) =~= b);
        },
        PlayerActionV::Certify { address, signature } => {
            assert(data.subrange(2, 22) =~= address);
            assert(data.subrange(22, 87) =~= signature);
        },
    }
}

/// Decoding accepts only canonical encodings of well-formed proof actions.
pub proof fn lemma_pa_ser_de<A: Action>(data: Seq<u8>)
    requires
        data.len() <= u32::MAX,
    ensures
        pa_de::<A>(data) matches Some(v) ==> pa_wf::<A>(v) && pa_ser(v) == data,
{
    if pa_de::<A>(data) is Some {
        let v = pa_de::<A>(data).unwrap();

        match v.action {
            PlayerActionV::Play(b) => {
                assert(pa_ser(v) =~= data);
            },
            PlayerActionV::Certify { address, signature } => {
                assert(pa_ser(v) =~= data);
            },
        }
    }
}

impl<A: Action> ProofAction<A> {
    /// Whether the action is well formed.
    pub open spec fn wf(&self) -> bool {
        &&& pa_wf::<A>(self@)
        &&& match self.action {
            PlayerAction::Play(a) => a.wf(),
            PlayerAction::Certify { .. } => true,
        }
    }

    /// Decodes an action from the whole of `data`; the buffer must fit a
    /// length frame.
    pub fn deserialize(data: &[u8]) -> (r: Result<Self, Error>)
        requires
            data@.len() <= u32::MAX,
        ensures
            match r {
                Ok(a) => a.wf() && pa_de::<A>(data@) == Some(a@),
                Err(e) => pa_de::<A>(data@) is None && e == Error::Hard,
            },
    {
        let dlen: usize = data.len();

        if dlen < 2 {
            return Err(Error::Hard);
        }

        let tag = data[0];
        let player = if tag == 0 {
            None
        } else {
            Some(tag - 1)
        };

        let variant = data[1];

        if variant == 0 {
            let body = codec::read_bytes(data, 2, dlen - 2)?;

            proof {
                assert(body@ =~= data@.skip(2));
            }

            let a = A::deserialize(body.as_slice())?;

            let r = ProofAction { player, action: PlayerAction::Play(a) };

            proof {
                assert(pa_ser(r@) =~= data@);
            }

            Ok(r)
        } else if variant == 1 {
            if dlen != 2 + 20 + 65 {
                return Err(Error::Hard);
            }

            let address = codec::read_bytes(data, 2, 20)?;
            let signature = codec::read_bytes(data, 22, 65)?;

            let r = ProofAction { player, action: PlayerAction::Certify { address, signature } };

            proof {
                assert(pa_ser(r@) =~= data@);
            }

            Ok(r)
        } else {
            Err(Error::Hard)
        }
    }

    /// Writes the action's encoding.
    pub fn serialize(&self) -> (r: Vec<u8>)
        requires
            self.wf(),
        ensures
            r@ == pa_ser(self@),
    {
        let mut out: Vec<u8> = Vec::new();

        match self.player {
            None => codec::write_u8(&mut out, 0),
            Some(p) => codec::write_u8(&mut out, p + 1),
        }

        match &self.action {
            PlayerAction::Play(a) => {
                codec::write_u8(&mut out, 0);

                let body = a.serialize();
                codec::write_bytes(&mut out, body.as_slice());
            },
            PlayerAction::Certify { address, signature } => {
                codec::write_u8(&mut out, 1);
                codec::write_bytes(&mut out, address.as_slice());
                codec::write_bytes(&mut out, signature.as_slice());
            },
        }

        proof {
            assert(out@ =~= pa_ser(self@));
        }

        out
    }

    /// An owned copy of the action.
    pub fn dup(&self) -> (r: Self)
        requires
            self.wf(),
        ensures
            r.wf(),
            r@ == self@,
    {
        match &self.action {
            PlayerAction::Play(a) => ProofAction { player: self.player, action: PlayerAction::Play(a.dup()) },
            PlayerAction::Certify { address, signature } => {
                let a = codec::dup_bytes(address);
                let s = codec::dup_bytes(signature);

                ProofAction { player: self.player, action: PlayerAction::Certify { address: a, signature: s } }
            },
        }
    }
}

/// The models of a sequence of actions.
pub open spec fn pa_views<A: Action>(s: Seq<ProofAction<A>>) -> Seq<ProofActionV> {
    s.map_values(|a: ProofAction<A>| a@)
}

/// Whether every action in a sequence is well formed.
pub open spec fn pa_all_wf<A: Action>(s: Seq<ProofAction<A>>) -> bool {
    forall|i: int| 0 <= i < s.len() ==> (#[trigger] s[i]).wf()
}

/// The concatenated encodings of a sequence of actions, unframed.  Signing
/// messages append actions this way.
pub open spec fn flat_ser(s: Seq<ProofActionV>) -> Seq<u8>
    decreases s.len(),
{
    if s.len() == 0 {
        Seq::empty()
    } else {
        flat_ser(s.drop_last()) + pa_ser(s.last())
    }
}

/// The concatenated encodings of a sequence of actions, each preceded by its
/// little-endian length.  Container bodies frame actions this way.
pub open spec fn framed_ser(s: Seq<ProofActionV>) -> Seq<u8>
    decreases s.len(),
{
    if s.len() == 0 {
        Seq::empty()
    } else {
        framed_ser(s.drop_last()) + codec::u32_le(pa_ser(s.last()).len() as u32) + pa_ser(s.last())
    }
}

/// Decodes `count` framed actions starting at `at`: each is a little-endian
/// length followed by the action's encoding.  Returns the actions and the
/// position one past the last frame.
pub open spec fn actions_de<A: Action>(data: Seq<u8>, at: int, count: int) -> Option<
    (Seq<ProofActionV>, int),
>
    decreases count,
{
    if count <= 0 {
        Some((Seq::empty(), at))
    } else if at + 4 > data.len() {
        None
    } else {
        let size = codec::le_u32(data.subrange(at, at + 4));
        if at + 4 + size > data.len() {
            None
        } else {
            match pa_de::<A>(data.subrange(at + 4, at + 4 + size)) {
                Some(a) => match actions_de::<A>(data, at + 4 + size, count - 1) {
                    Some((rest, end)) => Some((seq![a] + rest, end)),
                    None => None,
                },
                None => None,
            }
        }
    }
}

/// Reads `count` framed actions starting at `at0`.  The decoded actions are
/// well formed and re-encode to exactly the bytes read.
#[verifier::rlimit(60)]
pub fn read_actions<A: Action>(data: &[u8], at0: usize, count: usize) -> (r: Result<
    (Vec<ProofAction<A>>, usize),
    Error,
>)
    requires
        at0 <= data@.len(),
    ensures
        match r {
            Ok((v, end)) => ({
                &&& actions_de::<A>(data@, at0 as int, count as int) == Some(
                    (pa_views(v@), end as int),
                )
                &&& pa_all_wf(v@)
                &&& v@.len() == count
                &&& at0 <= end <= data@.len()
                &&& framed_ser(pa_views(v@)) == data@.subrange(at0 as int, end as int)
            }),
            Err(e) => actions_de::<A>(data@, at0 as int, count as int) is None && e
                == Error::Hard,
        },
{
    let dlen: usize = data.len();
    let mut built: Vec<ProofAction<A>> = Vec::new();
    let mut cur: usize = at0;
    let mut i: usize = 0;

    proof {
        assert(pa_views(built@) =~= Seq::<ProofActionV>::empty());
        assert(data@.subrange(at0 as int, at0 as int) =~= Seq::<u8>::empty());
        match actions_de::<A>(data@, at0 as int, count as int) {
            Some((rest, end)) => {
                assert(pa_views(built@) + rest =~= rest);
            },
            None => {},
        }
    }

    while i < count
        invariant
            i <= count,
            at0 <= cur <= dlen,
            dlen == data@.len(),
            built@.len() == i,
            pa_all_wf(built@),
            framed_ser(pa_views(built@)) == data@.subrange(at0 as int, cur as int),
            actions_de::<A>(data@, at0 as int, count as int) == (match actions_de::<A>(
                data@,
                cur as int,
                count - i,
            ) {
                Some((rest, end)) => Some((pa_views(built@) + rest, end)),
                None => None,
            }),
        decreases count - i,
    {
        let ghost views0 = pa_views(built@);

        let size = codec::read_u32_usize(data, cur)?;

        proof {
            codec::lemma_u32_le(size as u32);
        }

        if size > dlen - (cur + 4) {
            proof {
                assert(actions_de::<A>(data@, cur as int, count - i) is None);
            }
            return Err(Error::Hard);
        }

        let body = &data[cur + 4..cur + 4 + size];

        let a = match ProofAction::<A>::deserialize(body) {
            Ok(a) => a,
            Err(e) => {
                return Err(e);
            },
        };

        built.push(a);
        cur = cur + 4 + size;
        i = i + 1;

        proof {
            codec::lemma_u32_le(size as u32);

            let views = pa_views(built@);
            assert(views =~= views0 + seq![a@]);
            assert(views.drop_last() =~= views0);
            assert(framed_ser(views) =~= data@.subrange(at0 as int, cur as int));
            match actions_de::<A>(data@, cur as int, count - i) {
                Some((rest, end)) => {
                    assert(views0 + (seq![a@] + rest) =~= views + rest);
                },
                None => {},
            }
        }
    }

    Ok((built, cur))
}

/// In a non-empty sequence the framed encoding is the first frame followed
/// by the framed encoding of the rest.
pub proof fn lemma_framed_shift(s: Seq<ProofActionV>)
    requires
        s.len() > 0,
    ensures
        framed_ser(s) == codec::u32_le(pa_ser(s[0]).len() as u32) + pa_ser(s[0]) + framed_ser(
            s.skip(1),
        ),
    decreases s.len(),
{
    if s.len() == 1 {
        assert(s.drop_last() =~= Seq::<ProofActionV>::empty());
        assert(s.skip(1) =~= Seq::<ProofActionV>::empty());
        assert(framed_ser(s) =~= codec::u32_le(pa_ser(s[0]).len() as u32) + pa_ser(s[0])
            + framed_ser(s.skip(1)));
    } else {
        lemma_framed_shift(s.drop_last());
        assert(s.drop_last()[0] == s[0]);
        assert(s.drop_last().skip(1) =~= s.skip(1).drop_last());
        assert(s.skip(1).last() == s.last());
        assert(framed_ser(s) =~= codec::u32_le(pa_ser(s[0]).len() as u32) + pa_ser(s[0])
            + framed_ser(s.skip(1)));
    }
}

/// Framed actions written at `at` decode back to themselves.
#[verifier::rlimit(60)]
pub proof fn lemma_actions_de_ser<A: Action>(data: Seq<u8>, at: int, s: Seq<ProofActionV>)
    requires
        forall|i: int| 0 <= i < s.len() ==> pa_wf::<A>(#[trigger] s[i]),
        0 <= at,
        at + framed_ser(s).len() <= data.len(),
        data.subrange(at, at + framed_ser(s).len() as int) == framed_ser(s),
    ensures
        actions_de::<A>(data, at, s.len() as int) == Some((s, at + framed_ser(s).len() as int)),
    decreases s.len(),
{
    if s.len() == 0 {
        assert(s =~= Seq::<ProofActionV>::empty());
    } else {
        lemma_framed_shift(s);

        let head = pa_ser(s[0]);
        let hl = head.len() as int;
        let total = framed_ser(s);
        let tl = total.len() as int;
        let rest = framed_ser(s.skip(1));

        codec::lemma_u32_le(head.len() as u32);

        assert(tl == 4 + hl + rest.len());

        data.lemma_slice_of_slice(at, at + tl, 0, 4);
        data.lemma_slice_of_slice(at, at + tl, 4, 4 + hl);
        data.lemma_slice_of_slice(at, at + tl, 4 + hl, tl);

        assert(total.subrange(0, 4) =~= codec::u32_le(head.len() as u32));
        assert(total.subrange(4, 4 + hl) =~= head);
        assert(total.subrange(4 + hl, tl) =~= rest);

        assert(data.subrange(at, at + 4) == codec::u32_le(head.len() as u32));
        assert(data.subrange(at + 4, at + 4 + hl) == head);
        assert(data.subrange(at + 4 + hl, at + 4 + hl + rest.len() as int) == rest);

        lemma_pa_de_ser::<A>(s[0]);

        assert forall|i: int| 0 <= i < s.skip(1).len() implies pa_wf::<A>(
            #[trigger] s.skip(1)[i],
        ) by {
            assert(s.skip(1)[i] == s[i + 1]);
        }

        lemma_actions_de_ser::<A>(data, at + 4 + hl, s.skip(1));

        assert(seq![s[0]] + s.skip(1) =~= s);
    }
}

/// The unframed encoding splits over concatenation.
pub proof fn lemma_flat_concat(a: Seq<ProofActionV>, b: Seq<ProofActionV>)
    ensures
        flat_ser(a + b) == flat_ser(a) + flat_ser(b),
    decreases b.len(),
{
    if b.len() == 0 {
        assert(a + b =~= a);
        assert(flat_ser(a) + flat_ser(b) =~= flat_ser(a));
    } else {
        assert((a + b).drop_last() =~= a + b.drop_last());
        assert((a + b).last() == b.last());
        lemma_flat_concat(a, b.drop_last());
        assert(flat_ser(a) + flat_ser(b) =~= flat_ser(a) + flat_ser(b.drop_last()) + pa_ser(
            b.last(),
        ));
    }
}

/// Appends the unframed encodings of `actions[from..]`.
pub fn write_actions_flat<A: Action>(out: &mut Vec<u8>, actions: &Vec<ProofAction<A>>, from: usize)
    requires
        from <= actions@.len(),
        pa_all_wf(actions@),
    ensures
        final(out)@ == old(out)@ + flat_ser(
            pa_views(actions@).subrange(from as int, actions@.len() as int),
        ),
{
    let n = actions.len();
    let mut i: usize = from;

    proof {
        assert(pa_views(actions@).subrange(from as int, from as int) =~= Seq::empty());
        assert(flat_ser(Seq::empty()) == Seq::<u8>::empty());
        assert(out@ =~= old(out)@ + Seq::<u8>::empty());
    }

    while i < n
        invariant
            from <= i <= n,
            n == actions@.len(),
            pa_all_wf(actions@),
            out@ == old(out)@ + flat_ser(pa_views(actions@).subrange(from as int, i as int)),
        decreases n - i,
    {
        let bytes = actions[i].serialize();
        codec::write_bytes(out, bytes.as_slice());
        i = i + 1;

        proof {
            let vs = pa_views(actions@);
            assert(vs.subrange(from as int, i as int).drop_last() =~= vs.subrange(
                from as int,
                i - 1,
            ));
            assert(vs.subrange(from as int, i as int).last() == actions@[i - 1]@);
        }
    }

    proof {
        assert(pa_views(actions@).subrange(from as int, n as int) =~= pa_views(
            actions@,
        ).subrange(from as int, actions@.len() as int));
    }
}

/// Appends the unframed encodings of `actions[from..to]`.
pub fn write_actions_range<A: Action>(
    out: &mut Vec<u8>,
    actions: &Vec<ProofAction<A>>,
    from: usize,
    to: usize,
)
    requires
        from <= to <= actions@.len(),
        pa_all_wf(actions@),
    ensures
        final(out)@ == old(out)@ + flat_ser(pa_views(actions@).subrange(from as int, to as int)),
{
    let mut i: usize = from;

    proof {
        assert(pa_views(actions@).subrange(from as int, from as int) =~= Seq::empty());
        assert(flat_ser(Seq::empty()) == Seq::<u8>::empty());
        assert(out@ =~= old(out)@ + Seq::<u8>::empty());
    }

    while i < to
        invariant
            from <= i <= to,
            to <= actions@.len(),
            pa_all_wf(actions@),
            out@ == old(out)@ + flat_ser(pa_views(actions@).subrange(from as int, i as int)),
        decreases to - i,
    {
        let bytes = actions[i].serialize();
        codec::write_bytes(out, bytes.as_slice());
        i = i + 1;

        proof {
            let vs = pa_views(actions@);
            assert(vs.subrange(from as int, i as int).drop_last() =~= vs.subrange(
                from as int,
                i - 1,
            ));
            assert(vs.subrange(from as int, i as int).last() == actions@[i - 1]@);
        }
    }
}

/// Appends the framed encodings of `actions[from..]`.
pub fn write_actions_framed<A: Action>(
    out: &mut Vec<u8>,
    actions: &Vec<ProofAction<A>>,
    from: usize,
)
    requires
        from <= actions@.len(),
        pa_all_wf(actions@),
    ensures
        final(out)@ == old(out)@ + framed_ser(
            pa_views(actions@).subrange(from as int, actions@.len() as int),
        ),
{
    let n = actions.len();
    let mut i: usize = from;

    proof {
        assert(pa_views(actions@).subrange(from as int, from as int) =~= Seq::empty());
        assert(framed_ser(Seq::empty()) == Seq::<u8>::empty());
        assert(out@ =~= old(out)@ + Seq::<u8>::empty());
    }

    while i < n
        invariant
            from <= i <= n,
            n == actions@.len(),
            pa_all_wf(actions@),
            out@ == old(out)@ + framed_ser(pa_views(actions@).subrange(from as int, i as int)),
        decreases n - i,
    {
        let bytes = actions[i].serialize();
        let sized = codec::write_u32_usize(out, bytes.len());

        proof {
            assert(actions@[i as int].wf());
        }

        match sized {
            Ok(()) => {},
            Err(_) => {
                proof {
                    assert(false);
                }
            },
        }

        codec::write_bytes(out, bytes.as_slice());
        i = i + 1;

        proof {
            let vs = pa_views(actions@);
            assert(vs.subrange(from as int, i as int).drop_last() =~= vs.subrange(
                from as int,
                i - 1,
            ));
            assert(vs.subrange(from as int, i as int).last() == actions@[i - 1]@);
        }
    }

    proof {
        assert(pa_views(actions@).subrange(from as int, n as int) =~= pa_views(
            actions@,
        ).subrange(from as int, actions@.len() as int));
    }
}

} // verus!
