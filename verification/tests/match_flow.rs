use arcadeum::{Diff, PlayerAction, ProofAction, ProofState, RootProof};
use arcadeum::crypto::Signer;
use arcadeum::coin::Coin;
use arcadeum::store::{Prng, Secrets, Store, StoreAction, StoreState};

fn addr(b: u8) -> Vec<u8> {
    vec![b; 20]
}

fn root_bytes() -> Vec<u8> {
    let game = Coin { nonce: 0, score0: 0, score1: 0 };
    let state =
        ProofState::new(vec![7u8; 16], vec![addr(1), addr(2)], StoreState::new(game)).unwrap();
    let owner = Signer::new(addr(9)).unwrap();

    RootProof::new(state, Vec::new(), &owner).unwrap().serialize()
}

fn open_store(player: Option<u8>, key: u8) -> Store<Coin> {
    Store::new(
        player,
        &root_bytes(),
        Secrets::new(),
        true,
        Signer::new(addr(key)).unwrap(),
    )
    .unwrap()
}

fn reship(d: &Diff<StoreAction<bool>>) -> Diff<StoreAction<bool>> {
    Diff::deserialize(&d.serialize()).unwrap()
}

/// One full guessing turn: the action, then the commit, reply and reveal
/// that the schedulers owe, shipped between three replicas.
fn play_turn(
    owner: &mut Store<Coin>,
    p0: &mut Store<Coin>,
    p1: &mut Store<Coin>,
    entropy: &mut [Prng; 3],
    guess: bool,
    turn_of: u8,
) -> Vec<(u32, u32)> {
    let actor = if turn_of == 0 { Some(0) } else { Some(1) };

    let action = ProofAction {
        player: actor,
        action: PlayerAction::Play(StoreAction::Action(guess)),
    };

    let d = if turn_of == 0 { p0.diff(vec![action]) } else { p1.diff(vec![action]) }.unwrap();
    let d = reship(&d);

    let mut events: Vec<(u32, u32)> = Vec::new();

    // Relay diffs until every replica is quiescent again.
    let mut pending: Vec<Diff<StoreAction<bool>>> = vec![d];
    let mut rounds = 0;

    while let Some(d) = pending.pop() {
        rounds += 1;
        assert!(rounds < 10, "the turn did not settle");

        for (store, e) in [
            (&mut *owner, 0usize),
            (&mut *p0, 1usize),
            (&mut *p1, 2usize),
        ] {
            // The producer of a diff has already applied it while flushing.
            if store.hash().as_slice() != d.proof_hash().as_slice() {
                continue;
            }

            let out = store.apply(&reship(&d), &mut entropy[e]).unwrap();

            events.extend(out.events.iter().map(|e| *e));

            if let Some(next) = out.diff {
                pending.push(reship(&next));
            }
        }
    }

    assert_eq!(owner.hash(), p0.hash());
    assert_eq!(owner.hash(), p1.hash());

    events
}

fn game_of(store: &Store<Coin>) -> Coin {
    *store.state().state().state().expect("the machine is suspended")
}

#[test]
fn coin_turns_converge() {
    let mut owner = open_store(None, 9);
    let mut p0 = open_store(Some(0), 1);
    let mut p1 = open_store(Some(1), 2);

    let mut entropy =
        [Prng::from_seed(&[3u8; 16]), Prng::from_seed(&[4u8; 16]), Prng::from_seed(&[5u8; 16])];

    let events = play_turn(&mut owner, &mut p0, &mut p1, &mut entropy, true, 0);

    // The flip fired exactly once per replica, with one shared word.
    assert_eq!(events.len(), 3);
    assert!(events.iter().all(|e| *e == events[0]));

    let g = game_of(&owner);
    assert_eq!(g.nonce, 1);
    assert_eq!(g.score0 + g.score1, if (events[0].1 % 2 == 1) == true { 1 } else { 0 });
    assert_eq!(g.score1, 0);

    let events = play_turn(&mut owner, &mut p0, &mut p1, &mut entropy, false, 1);
    assert_eq!(events.len(), 3);

    let g2 = game_of(&owner);
    assert_eq!(g2.nonce, 2);
    assert_eq!(game_of(&p0), g2);
    assert_eq!(game_of(&p1), g2);
}

#[test]
fn wrong_turn_is_rejected() {
    let p0 = open_store(Some(0), 1);

    // Player 1 may not act on player 0's turn.
    let action = ProofAction {
        player: Some(1),
        action: PlayerAction::Play(StoreAction::Action(true)),
    };

    assert!(p0.diff(vec![action]).is_err());
}

#[test]
fn stale_parent_is_rejected() {
    let mut owner = open_store(None, 9);
    let mut p0 = open_store(Some(0), 1);
    let mut p1 = open_store(Some(1), 2);

    let mut entropy =
        [Prng::from_seed(&[3u8; 16]), Prng::from_seed(&[4u8; 16]), Prng::from_seed(&[5u8; 16])];

    let action = ProofAction {
        player: Some(0),
        action: PlayerAction::Play(StoreAction::Action(true)),
    };
    let d = reship(&p0.diff(vec![action]).unwrap());

    let before = p1.hash().clone();
    p1.apply(&d, &mut entropy[2]).unwrap();

    // Re-applying the same diff: its parent hash no longer matches.
    let r = p1.apply(&reship(&d), &mut entropy[2]);
    assert!(r.is_err());
    assert_ne!(p1.hash(), &before);

    // The other replicas accept it once, like player 1 did.
    owner.apply(&reship(&d), &mut entropy[0]).unwrap();
    p0.apply(&reship(&d), &mut entropy[1]).unwrap();
    assert_eq!(owner.hash(), p1.hash());
}

#[test]
fn certified_subkey_resolves_to_player() {
    let mut owner = open_store(None, 9);
    let mut p0 = open_store(Some(0), 1);
    let mut p1 = open_store(Some(1), 2);

    let mut entropy =
        [Prng::from_seed(&[3u8; 16]), Prng::from_seed(&[4u8; 16]), Prng::from_seed(&[5u8; 16])];

    let subkey = addr(7);

    // The challenge a subkey owner signs is, for this game, the subkey
    // address itself; player 0's long-term key signs it.
    let signature = Signer::new(addr(1)).unwrap().sign(&subkey);

    let certify = ProofAction {
        player: Some(0),
        action: PlayerAction::Certify { address: subkey.clone(), signature },
    };

    let d = reship(&p0.diff(vec![certify]).unwrap());

    for (store, e) in [(&mut owner, 0usize), (&mut p0, 1usize), (&mut p1, 2usize)] {
        store.apply(&reship(&d), &mut entropy[e]).unwrap();
    }

    assert_eq!(owner.state().player(&subkey), Some(0));
    assert_eq!(p1.state().player(&subkey), Some(0));

    // An uncertified address resolves to nobody.
    assert_eq!(owner.state().player(&addr(8)), None);

    // The subkey may now act for player 0.
    let action = ProofAction {
        player: Some(0),
        action: PlayerAction::Play(StoreAction::Action(true)),
    };
    let d2 = p0.diff(vec![action]);
    assert!(d2.is_ok());
}

#[test]
fn owner_timeout_unblocks_the_reply() {
    let mut owner = open_store(None, 9);
    let mut p0 = open_store(Some(0), 1);

    let mut e_owner = Prng::from_seed(&[3u8; 16]);
    let mut e0 = Prng::from_seed(&[4u8; 16]);

    // Player 0 opens a turn; player 1 never shows up.
    let action = ProofAction {
        player: Some(0),
        action: PlayerAction::Play(StoreAction::Action(true)),
    };
    let d = reship(&p0.diff(vec![action]).unwrap());

    let out0 = p0.apply(&reship(&d), &mut e0).unwrap();
    owner.apply(&reship(&d), &mut e_owner).unwrap();

    // Player 0's scheduler has committed; ship it to the owner.
    let dc = reship(&out0.diff.expect("player 0 owes a commitment"));
    owner.apply(&reship(&dc), &mut e_owner).unwrap();

    // The owner injects the missing reply.
    let ot = owner.dispatch_timeout(&mut e_owner).unwrap();
    let dt = reship(&ot.diff.expect("the owner owes the reply"));

    // Player 0 applies it and reveals; the owner applies the reveal.
    let out0 = p0.apply(&reship(&dt), &mut e0).unwrap();
    let dv = reship(&out0.diff.expect("player 0 owes the reveal"));
    let oo = owner.apply(&reship(&dv), &mut e_owner).unwrap();

    assert!(oo.ready);
    assert_eq!(owner.hash(), p0.hash());
    assert_eq!(game_of(&owner).nonce, 1);
}
