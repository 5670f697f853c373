use arcadeum::{Action, Diff, PlayerAction, ProofAction, ProofState, RootProof};
use arcadeum::crypto::Signer;
use arcadeum::coin::Coin;
use arcadeum::store::{Secrets, StoreAction, StoreState};

fn addr(b: u8) -> Vec<u8> {
    vec![b; 20]
}

fn match_id() -> Vec<u8> {
    vec![7u8; 16]
}

fn initial_state() -> ProofState<StoreState<Coin>> {
    let game = Coin { nonce: 0, score0: 0, score1: 0 };

    ProofState::new(match_id(), vec![addr(1), addr(2)], StoreState::new(game)).unwrap()
}

#[test]
fn store_action_round_trip() {
    let actions: Vec<StoreAction<bool>> = vec![
        StoreAction::Action(true),
        StoreAction::Action(false),
        StoreAction::RandomCommit(vec![3u8; 32]),
        StoreAction::RandomReply(vec![4u8; 16]),
        StoreAction::RandomReveal(vec![5u8; 16]),
        StoreAction::Reveal(vec![6u8; 3]),
    ];

    for a in &actions {
        let bytes = a.serialize();
        let back = StoreAction::<bool>::deserialize(&bytes).unwrap();
        assert_eq!(bytes, back.serialize());
    }

    // A commitment must be exactly 32 bytes on the wire.
    let mut bad = vec![1u8];
    bad.extend(vec![0u8; 31]);
    assert!(StoreAction::<bool>::deserialize(&bad).is_err());

    // An unknown tag is rejected.
    assert!(StoreAction::<bool>::deserialize(&[9u8, 0, 0]).is_err());
}

#[test]
fn proof_action_round_trip() {
    let play: ProofAction<StoreAction<bool>> =
        ProofAction { player: Some(1), action: PlayerAction::Play(StoreAction::Action(true)) };

    let bytes = play.serialize();
    let back = ProofAction::<StoreAction<bool>>::deserialize(&bytes).unwrap();
    assert_eq!(back.player, Some(1));
    assert_eq!(bytes, back.serialize());

    let certify: ProofAction<StoreAction<bool>> = ProofAction {
        player: Some(0),
        action: PlayerAction::Certify { address: addr(8), signature: vec![9u8; 65] },
    };

    let bytes = certify.serialize();
    let back = ProofAction::<StoreAction<bool>>::deserialize(&bytes).unwrap();
    assert_eq!(bytes, back.serialize());

    // The empty buffer is not an action.
    assert!(ProofAction::<StoreAction<bool>>::deserialize(&[]).is_err());
}

#[test]
fn proof_state_round_trip() {
    let state = initial_state();
    let bytes = state.serialize().unwrap();

    let back = ProofState::<StoreState<Coin>>::deserialize(&bytes).unwrap();
    assert_eq!(bytes, back.serialize().unwrap());

    // A truncated snapshot is rejected.
    assert!(ProofState::<StoreState<Coin>>::deserialize(&bytes[..bytes.len() - 1]).is_err());
}

#[test]
fn root_proof_round_trip() {
    let owner = Signer::new(addr(9)).unwrap();
    let root = RootProof::new(initial_state(), Vec::new(), &owner).unwrap();

    let bytes = root.serialize();
    let back = RootProof::<StoreState<Coin>>::deserialize(&bytes).unwrap();

    assert_eq!(back.serialize(), bytes);
    assert_eq!(back.hash(), root.hash());
    assert_eq!(back.author(), &addr(9));

    // The hash is the keccak-256 digest of the encoding.
    assert_eq!(root.hash().as_slice(), &tiny_keccak::keccak256(&bytes));

    // A flipped byte inside the signature's embedded digest invalidates it.
    let mut bad = bytes.clone();
    let at = bad.len() - 20;
    bad[at] ^= 0xff;
    assert!(RootProof::<StoreState<Coin>>::deserialize(&bad).is_err());
}

#[test]
fn diff_round_trip() {
    let owner = Signer::new(addr(9)).unwrap();
    let root = RootProof::new(initial_state(), Vec::new(), &owner).unwrap();
    let proof = arcadeum::proofs::Proof::new(root);

    let player0 = Signer::new(addr(1)).unwrap();
    let play: ProofAction<StoreAction<bool>> =
        ProofAction { player: Some(0), action: PlayerAction::Play(StoreAction::Action(true)) };

    let diff = proof.diff(vec![play], &player0).unwrap();

    let bytes = diff.serialize();
    let back = Diff::<StoreAction<bool>>::deserialize(&bytes).unwrap();

    assert_eq!(back.serialize(), bytes);
    assert_eq!(back.author(), &addr(1));
    assert_eq!(back.proof_hash(), proof.hash());

    // A flipped byte breaks the outer signature.
    let mut bad = bytes.clone();
    bad[0] ^= 0xff;
    assert!(Diff::<StoreAction<bool>>::deserialize(&bad).is_err());
}

#[test]
fn proof_round_trip() {
    let owner = Signer::new(addr(9)).unwrap();
    let root = RootProof::new(initial_state(), Vec::new(), &owner).unwrap();
    let proof = arcadeum::proofs::Proof::new(root);

    // Advance the proof by one turn so the log is not empty.
    let player0 = Signer::new(addr(1)).unwrap();
    let play: ProofAction<StoreAction<bool>> =
        ProofAction { player: Some(0), action: PlayerAction::Play(StoreAction::Action(true)) };
    let diff = proof.diff(vec![play], &player0).unwrap();

    let mut proof = proof;
    proof.apply(&diff).unwrap();

    let bytes = proof.serialize();

    // A sibling replica decodes the bytes over the same root.
    let root2 = RootProof::<StoreState<Coin>>::deserialize(
        &RootProof::new(initial_state(), Vec::new(), &owner).unwrap().serialize(),
    )
    .unwrap();
    let mut other = arcadeum::proofs::Proof::new(root2);

    other.deserialize(&bytes).unwrap();

    assert_eq!(other.serialize(), bytes);
    assert_eq!(other.hash(), proof.hash());
    assert_eq!(other.hash().as_slice(), &tiny_keccak::keccak256(&bytes));

    // A truncated buffer is rejected and leaves the replica unchanged.
    let before = other.hash().clone();
    assert!(other.deserialize(&bytes[..bytes.len() - 1]).is_err());
    assert_eq!(other.hash(), &before);
}

#[test]
fn proof_hash_is_keccak_of_encoding() {
    let owner = Signer::new(addr(9)).unwrap();
    let root = RootProof::new(initial_state(), Vec::new(), &owner).unwrap();
    let proof = arcadeum::proofs::Proof::new(root);

    assert_eq!(proof.hash().as_slice(), &tiny_keccak::keccak256(&proof.serialize()));
}

#[test]
fn recover_matches_signer() {
    let signer = Signer::new(addr(5)).unwrap();
    let message = b"an arbitrary message";
    let signature = signer.sign(message);

    assert_eq!(signature.len(), 65);
    assert_eq!(arcadeum::crypto::recover(message, &signature).unwrap(), addr(5));

    // A signature over one message does not verify for another.
    assert!(arcadeum::crypto::recover(b"another message", &signature).is_err());
}

#[test]
fn initial_state_rejects_bad_shapes() {
    let game = Coin { nonce: 0, score0: 0, score1: 0 };

    // Three players are two too many for one, and a short address fails.
    assert!(
        ProofState::new(match_id(), vec![addr(1)], StoreState::new(game)).is_err()
    );
    assert!(
        ProofState::new(match_id(), vec![addr(1), vec![2u8; 19]], StoreState::new(game)).is_err()
    );

    let _ = Secrets::<Coin>::new();
}
