use incrementalmerkletree::frontier::CommitmentTree;
use rand::rngs::SysRng;
use rand_core::UnwrapErr;
use sapling_crypto::keys::OutgoingViewingKey;
use sapling_crypto::note_encryption::{sapling_note_encryption, SaplingDomain, Zip212Enforcement};
use sapling_crypto::util::generate_random_rseed;
use sapling_crypto::value::NoteValue;
use sapling_crypto::zip32::{ExtendedFullViewingKey, ExtendedSpendingKey};
use sapling_crypto::Node;
use zcash_note_encryption::Domain;

use sapling_scan::compact::{CompactBlock, CompactOutput, CompactSpend, CompactTx};
use sapling_scan::sapling::{Zip212, tree_root, tree_size, witness_root};
use sapling_scan::scan::{zip212_at, check_next_height, last_scanned_height, prune_height, ScanError, ScanState};
use sapling_scan::wallet::WalletShieldedSpend;
use sapling_scan::welding_rig::viewing_keys;

const ACTIVATION: i32 = 280_000;

#[allow(deprecated)]
fn extfvk_of(seed: &[u8]) -> ExtendedFullViewingKey {
    ExtendedSpendingKey::master(seed).unwrap().to_extended_full_viewing_key()
}

fn output_to(extfvk: &ExtendedFullViewingKey, value: u64) -> CompactOutput {
    let mut rng = UnwrapErr(SysRng);
    let to = extfvk.default_address().1;
    let rseed = generate_random_rseed(Zip212Enforcement::GracePeriod, &mut rng);
    let note = to.create_note(NoteValue::from_raw(value), rseed);
    let cmu = note.cmu().to_bytes().to_vec();
    let enc = sapling_note_encryption(Some(OutgoingViewingKey([0; 32])), note, [0; 512], &mut rng);
    let epk = SaplingDomain::epk_bytes(enc.epk()).0.to_vec();
    CompactOutput { cmu, epk, ciphertext: enc.encrypt_note_plaintext().as_ref()[..52].to_vec() }
}

fn block_with(height: i32, spends: Vec<Vec<u8>>, outputs: Vec<CompactOutput>) -> CompactBlock {
    CompactBlock {
        height: height as u64,
        hash: vec![height as u8; 32],
        time: 0,
        vtx: vec![CompactTx {
            hash: vec![height as u8; 32],
            spends: spends.into_iter().map(|nf| CompactSpend { nf }).collect(),
            outputs,
        }],
    }
}

fn fresh_state() -> ScanState {
    ScanState::new(
        last_scanned_height(None, ACTIVATION),
        CommitmentTree::<Node, 32>::empty(),
        vec![],
        vec![],
    )
    .unwrap()
}

/// Scans one block and records its spends and notes as the wallet would,
/// returning the values received and the values of the notes spent.
fn scan_and_record(
    state: &mut ScanState,
    height: i32,
    block: CompactBlock,
    extfvks: &Vec<ExtendedFullViewingKey>,
    next_note: &mut i64,
    notes: &mut Vec<(Vec<u8>, u64)>,
) -> Result<(), ScanError> {
    let txs = state.scan_next(height, block, &viewing_keys(extfvks), Zip212::GracePeriod)?;
    for (tx, witnesses) in txs {
        notes.retain(|(nf, _)| !tx.shielded_spends.iter().any(|s| &s.nf == nf));
        let nfs: Vec<Vec<u8>> = tx
            .shielded_outputs
            .iter()
            .zip(witnesses.iter())
            .map(|(output, witness)| ScanState::output_nullifier(output, witness, extfvks))
            .collect();
        let mut ids = vec![];
        for (output, nf) in tx.shielded_outputs.iter().zip(nfs.iter()) {
            notes.push((nf.clone(), output.note.value().inner()));
            ids.push(*next_note);
            *next_note += 1;
        }
        state.record_tx(&tx, witnesses, &ids, nfs);
    }
    Ok(())
}

fn balance(notes: &Vec<(Vec<u8>, u64)>) -> u64 {
    notes.iter().map(|(_, v)| v).sum()
}

#[test]
fn last_height_defaults_below_activation() {
    assert_eq!(last_scanned_height(None, ACTIVATION), ACTIVATION - 1);
    assert_eq!(last_scanned_height(Some(300_000), ACTIVATION), 300_000);
}

#[test]
fn next_height_must_follow_directly() {
    assert_eq!(check_next_height(10, 11), Ok(()));
    assert_eq!(check_next_height(10, 12), Err(ScanError::InvalidHeight(11, 12)));
    assert_eq!(check_next_height(10, 10), Err(ScanError::InvalidHeight(11, 10)));
}

#[test]
fn witnesses_older_than_retention_are_pruned() {
    assert_eq!(prune_height(1000), 900);
    assert_eq!(prune_height(ACTIVATION + 100), ACTIVATION);
}

#[test]
fn record_spends_drops_only_revealed_nullifiers() {
    let mut state = fresh_state();
    state.track_note(1, dummy_witness(), vec![1; 32], 0);
    state.track_note(2, dummy_witness(), vec![2; 32], 1);
    state.track_note(3, dummy_witness(), vec![3; 32], 0);
    state.record_spends(&vec![WalletShieldedSpend { index: 0, nf: vec![2; 32], account: 1 }]);
    assert_eq!(state.nullifiers, vec![(vec![1; 32], 0), (vec![3; 32], 0)]);
    state.record_spends(&vec![]);
    assert_eq!(state.nullifiers.len(), 2);
}

fn dummy_witness() -> sapling_scan::sapling::Witness {
    let mut tree = CommitmentTree::<Node, 32>::empty();
    tree.append(Node::from_bytes([1; 32]).unwrap()).unwrap();
    incrementalmerkletree::witness::IncrementalWitness::from_tree(tree).unwrap()
}

#[test]
fn scan_cached_blocks_requires_sequential_blocks() {
    let extfvk = extfvk_of(&[0; 32]);
    let extfvks = vec![extfvk.clone()];
    let mut state = fresh_state();
    let mut next_note = 1;
    let mut notes = vec![];

    let value = 50_000;
    scan_and_record(&mut state, ACTIVATION, block_with(ACTIVATION, vec![], vec![output_to(&extfvk, value)]), &extfvks, &mut next_note, &mut notes).unwrap();
    assert_eq!(balance(&notes), value);

    // A block two above the last one is refused and changes nothing.
    let before = tree_root(&state.tree);
    match scan_and_record(&mut state, ACTIVATION + 2, block_with(ACTIVATION + 2, vec![], vec![output_to(&extfvk, value)]), &extfvks, &mut next_note, &mut notes) {
        Ok(_) => panic!("Should have failed"),
        Err(e) => assert_eq!(e, ScanError::InvalidHeight(ACTIVATION + 1, ACTIVATION + 2)),
    }
    assert_eq!(state.last_height, ACTIVATION);
    assert_eq!(tree_root(&state.tree), before);

    // With the missing block in place both apply.
    scan_and_record(&mut state, ACTIVATION + 1, block_with(ACTIVATION + 1, vec![], vec![output_to(&extfvk, value)]), &extfvks, &mut next_note, &mut notes).unwrap();
    scan_and_record(&mut state, ACTIVATION + 2, block_with(ACTIVATION + 2, vec![], vec![output_to(&extfvk, value)]), &extfvks, &mut next_note, &mut notes).unwrap();
    assert_eq!(balance(&notes), 150_000);
    assert_eq!(state.last_height, ACTIVATION + 2);
    assert_eq!(tree_size(&state.tree), 3);
}

#[test]
fn scan_cached_blocks_finds_received_notes() {
    let extfvk = extfvk_of(&[0; 32]);
    let extfvks = vec![extfvk.clone()];
    let mut state = fresh_state();
    let mut next_note = 1;
    let mut notes = vec![];
    assert_eq!(balance(&notes), 0);

    scan_and_record(&mut state, ACTIVATION, block_with(ACTIVATION, vec![], vec![output_to(&extfvk, 5)]), &extfvks, &mut next_note, &mut notes).unwrap();
    assert_eq!(balance(&notes), 5);

    scan_and_record(&mut state, ACTIVATION + 1, block_with(ACTIVATION + 1, vec![], vec![output_to(&extfvk, 7)]), &extfvks, &mut next_note, &mut notes).unwrap();
    assert_eq!(balance(&notes), 12);

    // Both witnesses follow the tree.
    let root = tree_root(&state.tree);
    assert_eq!(state.witnesses.len(), 2);
    assert_eq!(state.witness_notes, vec![1, 2]);
    for w in &state.witnesses {
        assert_eq!(witness_root(w), root);
    }
}

#[test]
fn scan_cached_blocks_finds_change_notes() {
    let extfvk = extfvk_of(&[0; 32]);
    let extfvks = vec![extfvk.clone()];
    let mut state = fresh_state();
    let mut next_note = 1;
    let mut notes = vec![];

    scan_and_record(&mut state, ACTIVATION, block_with(ACTIVATION, vec![], vec![output_to(&extfvk, 5)]), &extfvks, &mut next_note, &mut notes).unwrap();
    assert_eq!(balance(&notes), 5);
    let nf = state.nullifiers[0].0.clone();

    // Spend it: 2 to a stranger, 3 back as change.
    let stranger = extfvk_of(&[1; 32]);
    let block = block_with(ACTIVATION + 1, vec![nf.clone()], vec![output_to(&stranger, 2), output_to(&extfvk, 3)]);
    let txs = state.scan_next(ACTIVATION + 1, block, &viewing_keys(&extfvks), Zip212::GracePeriod).unwrap();
    assert_eq!(txs.len(), 1);
    let (tx, witnesses) = txs.into_iter().next().unwrap();
    assert_eq!(tx.shielded_spends.len(), 1);
    assert_eq!(tx.shielded_spends[0].nf, nf);
    assert_eq!(tx.shielded_outputs.len(), 1);
    assert!(tx.shielded_outputs[0].is_change);
    notes.retain(|(n, _)| n != &nf);
    let change_nf = ScanState::output_nullifier(&tx.shielded_outputs[0], &witnesses[0], &extfvks);
    notes.push((change_nf.clone(), tx.shielded_outputs[0].note.value().inner()));
    state.record_tx(&tx, witnesses, &vec![2], vec![change_nf.clone()]);
    assert_eq!(state.witness_notes, vec![1, 2]);
    assert_eq!(balance(&notes), 3);
    assert_eq!(state.nullifiers.len(), 1);
    assert_ne!(state.nullifiers[0].0, nf);
    assert_eq!(state.nullifiers[0], (change_nf, 0));
}

#[test]
fn a_note_received_earlier_in_the_batch_is_seen_spent() {
    let extfvk = extfvk_of(&[0; 32]);
    let extfvks = vec![extfvk.clone()];
    let mut state = fresh_state();
    let mut next_note = 1;
    let mut notes = vec![];
    scan_and_record(&mut state, ACTIVATION, block_with(ACTIVATION, vec![], vec![output_to(&extfvk, 5)]), &extfvks, &mut next_note, &mut notes).unwrap();
    let nf = state.nullifiers[0].0.clone();
    scan_and_record(&mut state, ACTIVATION + 1, block_with(ACTIVATION + 1, vec![nf], vec![]), &extfvks, &mut next_note, &mut notes).unwrap();
    assert!(state.nullifiers.is_empty());
    assert_eq!(balance(&notes), 0);
}

#[test]
fn a_stored_witness_ahead_of_the_tree_is_refused() {
    let mut state = ScanState::new(ACTIVATION, CommitmentTree::<Node, 32>::empty(), vec![(7, dummy_witness())], vec![]).unwrap();
    let block = block_with(ACTIVATION + 1, vec![], vec![]);
    let r = state.scan_next(ACTIVATION + 1, block, &viewing_keys(&vec![]), Zip212::GracePeriod);
    assert_eq!(r.err(), Some(ScanError::InvalidWitnessAnchor(7, ACTIVATION + 1)));
}

#[test]
fn stale_witness_is_reported_after_scan() {
    // A witness of another tree with as many leaves fails the root check.
    let mut tree = CommitmentTree::<Node, 32>::empty();
    tree.append(Node::from_bytes([2; 32]).unwrap()).unwrap();
    let mut state = ScanState::new(ACTIVATION, tree, vec![(8, dummy_witness())], vec![]).unwrap();
    let block = block_with(ACTIVATION + 1, vec![], vec![]);
    let r = state.scan_next(ACTIVATION + 1, block, &viewing_keys(&vec![]), Zip212::GracePeriod);
    assert_eq!(r.err(), Some(ScanError::InvalidWitnessAnchor(8, ACTIVATION + 1)));
}

#[test]
fn zip212_rule_follows_the_height() {
    assert_eq!(zip212_at(1_046_399), Zip212::Off);
    assert_eq!(zip212_at(1_046_400), Zip212::GracePeriod);
    assert_eq!(zip212_at(1_046_400 + 32_255), Zip212::GracePeriod);
    assert_eq!(zip212_at(1_046_400 + 32_256), Zip212::On);
}

#[test]
fn malformed_stored_state_is_refused() {
    let right_only = CommitmentTree::<Node, 32>::from_parts(None, Some(Node::from_bytes([1; 32]).unwrap()), vec![]).unwrap();
    assert!(ScanState::new(ACTIVATION, right_only, vec![], vec![]).is_none());
    let empty = CommitmentTree::<Node, 32>::empty();
    let cursor = CommitmentTree::<Node, 32>::from_parts(Some(Node::from_bytes([2; 32]).unwrap()), None, vec![]).unwrap();
    let one_leaf = CommitmentTree::<Node, 32>::from_parts(Some(Node::from_bytes([1; 32]).unwrap()), None, vec![]).unwrap();
    let early_cursor = incrementalmerkletree::witness::IncrementalWitness::from_parts(one_leaf, vec![], Some(cursor)).unwrap();
    assert!(ScanState::new(ACTIVATION, empty.clone(), vec![(1, early_cursor)], vec![]).is_none());
    assert!(ScanState::new(ACTIVATION, empty, vec![(1, dummy_witness())], vec![]).is_some());
}
