//! A coin-guessing game over the store: the player whose turn it is guesses
//! a shared fair coin, the flip is drawn from commit-reveal randomness, and
//! a correct guess scores a point.  The drawn word is logged as the turn's
//! event.

use vstd::prelude::*;
use crate::{Action, Error, Player};
use crate::codec;
use crate::store::{
    Context, Machine, NoSecret, prng_next, Secret, State, Step, StepV,
};

verus! {

/// The quiescent game state: whose turn it is and both scores.
#[derive(Clone, Copy, PartialEq, Eq, Structural, Debug)]
pub struct Coin {
    pub nonce: u8,
    pub score0: u8,
    pub score1: u8,
}

/// A flip in progress: the state it started from, the guessing player, and
/// the guess.
#[derive(Clone, Copy, PartialEq, Eq, Structural, Debug)]
pub struct CoinFlip {
    pub state: Coin,
    pub player: Player,
    pub guess: bool,
}

/// The state after a flip resolves: a correct guess scores a point, and the
/// turn passes.
pub open spec fn coin_settle(c: CoinFlip, word: u32) -> Coin {
    let correct = (word % 2 == 1) == c.guess;
    Coin {
        nonce: ((c.state.nonce + 1) % 0x100) as u8,
        score0: if correct && c.player == 0 {
            ((c.state.score0 + 1) % 0x100) as u8
        } else {
            c.state.score0
        },
        score1: if correct && c.player == 1 {
            ((c.state.score1 + 1) % 0x100) as u8
        } else {
            c.state.score1
        },
    }
}

impl Machine for Coin {
    type Secret = NoSecret;

    type Event = u32;

    type Cont = CoinFlip;

    type V = Coin;

    type CV = CoinFlip;

    open spec fn model(&self) -> Coin {
        *self
    }

    open spec fn wf(&self) -> bool {
        true
    }

    open spec fn cont_model(c: &CoinFlip) -> CoinFlip {
        *c
    }

    open spec fn cont_wf(c: &CoinFlip) -> bool {
        c.player < 2
    }
}

impl State for Coin {
    type ID = Vec<u8>;

    type Nonce = u8;

    type Action = bool;

    open spec fn serializable(v: Coin) -> bool {
        true
    }

    open spec fn ser(v: Coin) -> Seq<u8> {
        seq![v.nonce, v.score0, v.score1]
    }

    open spec fn de(data: Seq<u8>) -> Option<Coin> {
        if data.len() == 3 {
            Some(Coin { nonce: data[0], score0: data[1], score1: data[2] })
        } else {
            None
        }
    }

    open spec fn challenge_of(address: Seq<u8>) -> Seq<u8> {
        address
    }

    open spec fn ver(v: Coin, player: Option<Player>, action: Seq<u8>) -> bool {
        player == Some((v.nonce % 2) as Player)
    }

    open spec fn begin_of(v: Coin, player: Option<Player>, action: Seq<u8>, count: u32) -> (
        StepV<CoinFlip, Coin>,
        u32,
    ) {
        (
            StepV::AwaitRandom(
                CoinFlip {
                    state: v,
                    player: match player {
                        Some(p) => p,
                        None => 0,
                    },
                    guess: action == seq![1u8],
                },
            ),
            count,
        )
    }

    open spec fn resume_of(c: CoinFlip, random: Option<Seq<u8>>, secret: Option<Seq<u8>>, count: u32) -> (
        StepV<CoinFlip, Coin>,
        u32,
    ) {
        match random {
            Some(rs) => (
                StepV::Done(coin_settle(c, prng_next(rs).0)),
                if count < u32::MAX {
                    (count + 1) as u32
                } else {
                    count
                },
            ),
            None => (StepV::AwaitRandom(c), count),
        }
    }

    open spec fn extract_of(c: CoinFlip, secret: Seq<u8>) -> Seq<u8> {
        Seq::empty()
    }

    open spec fn reveal_ok(c: CoinFlip, data: Seq<u8>) -> bool {
        false
    }

    proof fn lemma_de_ser(v: Coin) {
        assert(Self::ser(v).len() == 3);
    }

    proof fn lemma_ser_de(data: Seq<u8>) {
        if data.len() == 3 {
            assert(Self::ser(Self::de(data).unwrap()) =~= data);
        }
    }

    fn challenge(address: &Vec<u8>) -> (r: Vec<u8>) {
        codec::dup_bytes(address)
    }

    fn deserialize(data: &[u8]) -> (r: Result<Coin, Error>) {
        if data.len() != 3 {
            return Err(Error::Hard);
        }

        Ok(Coin { nonce: data[0], score0: data[1], score1: data[2] })
    }

    fn serialize(&self) -> (r: Option<Vec<u8>>) {
        let mut out: Vec<u8> = Vec::new();
        codec::write_u8(&mut out, self.nonce);
        codec::write_u8(&mut out, self.score0);
        codec::write_u8(&mut out, self.score1);

        proof {
            assert(out@ =~= Self::ser(*self));
        }

        Some(out)
    }

    fn is_serializable(&self) -> (r: bool) {
        true
    }

    fn verify(&self, player: Option<Player>, action: &bool) -> (r: Result<(), Error>) {
        let expected = self.nonce % 2;

        match player {
            Some(p) => if p == expected {
                Ok(())
            } else {
                Err(Error::Hard)
            },
            None => Err(Error::Hard),
        }
    }

    fn begin(self, player: Option<Player>, action: &bool, ctx: &mut Context<Coin>) -> (r: Step<
        Coin,
    >) {
        let p = match player {
            Some(p) => p,
            None => 0,
        };

        let flip = CoinFlip { state: self, player: p, guess: *action };

        proof {
            assert((*action == true) == ((*action).ser() == seq![1u8])) by {
                if *action {
                    assert((*action).ser() =~= seq![1u8]);
                } else {
                    assert((*action).ser() =~= seq![0u8]);
                    assert(seq![0u8][0] != seq![1u8][0]);
                    assert((*action).ser() != seq![1u8]);
                }
            }
        }

        Step::AwaitRandom(flip)
    }

    fn resume(cont: CoinFlip, random: Option<crate::store::Prng>, secret: Option<Vec<u8>>, ctx:
        &mut Context<Coin>) -> (r: Step<Coin>) {
        match random {
            Some(mut prng) => {
                let word = prng.next_u32();

                ctx.log(word);

                let correct = (word % 2 == 1) == cont.guess;

                let state = Coin {
                    nonce: if cont.state.nonce == 255 {
                        0
                    } else {
                        cont.state.nonce + 1
                    },
                    score0: if correct && cont.player == 0 {
                        if cont.state.score0 == 255 {
                            0
                        } else {
                            cont.state.score0 + 1
                        }
                    } else {
                        cont.state.score0
                    },
                    score1: if correct && cont.player == 1 {
                        if cont.state.score1 == 255 {
                            0
                        } else {
                            cont.state.score1 + 1
                        }
                    } else {
                        cont.state.score1
                    },
                };

                Step::Done(state)
            },
            None => Step::AwaitRandom(cont),
        }
    }

    fn extract(cont: &CoinFlip, secret: &NoSecret) -> (r: Vec<u8>) {
        Vec::new()
    }

    fn check_reveal(cont: &CoinFlip, data: &[u8]) -> (r: bool) {
        false
    }

    fn dup(&self) -> (r: Coin) {
        *self
    }

    fn dup_cont(c: &CoinFlip) -> (r: CoinFlip) {
        *c
    }
}

} // verus!
