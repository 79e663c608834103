use incrementalmerkletree::frontier::CommitmentTree;
use rand::rngs::SysRng;
use rand_core::{Rng, UnwrapErr};
use sapling_crypto::keys::OutgoingViewingKey;
use sapling_crypto::note_encryption::{sapling_note_encryption, SaplingDomain, Zip212Enforcement};
use sapling_crypto::util::generate_random_rseed;
use sapling_crypto::value::NoteValue;
use sapling_crypto::zip32::{ExtendedFullViewingKey, ExtendedSpendingKey};
use sapling_crypto::Node;
use zcash_note_encryption::Domain;

use sapling_scan::compact::{CompactBlock, CompactOutput, CompactSpend, CompactTx};
use sapling_scan::sapling::{Zip212, tree_root, tree_size, witness_pos, witness_root, Tree};
use sapling_scan::welding_rig::{viewing_keys, find_account, find_spends, scan_block};

type Rand = UnwrapErr<SysRng>;

fn rng() -> Rand {
    UnwrapErr(SysRng)
}

#[allow(deprecated)]
fn extfvk_of(seed: &[u8]) -> ExtendedFullViewingKey {
    ExtendedSpendingKey::master(seed).unwrap().to_extended_full_viewing_key()
}

/// An output carrying a note of `value` for `extfvk`'s default address.
fn output_to(extfvk: &ExtendedFullViewingKey, value: u64, rng: &mut Rand) -> CompactOutput {
    let to = extfvk.default_address().1;
    let rseed = generate_random_rseed(Zip212Enforcement::GracePeriod, rng);
    let note = to.create_note(NoteValue::from_raw(value), rseed);
    let cmu = note.cmu().to_bytes().to_vec();
    let enc = sapling_note_encryption(Some(OutgoingViewingKey([0; 32])), note, [0; 512], rng);
    let epk = SaplingDomain::epk_bytes(enc.epk()).0.to_vec();
    let ciphertext = enc.encrypt_note_plaintext();
    CompactOutput { cmu, epk, ciphertext: ciphertext.as_ref()[..52].to_vec() }
}

fn random_bytes(rng: &mut Rand) -> Vec<u8> {
    let mut b = vec![0u8; 32];
    rng.fill_bytes(&mut b);
    b
}

fn random_compact_tx(rng: &mut Rand) -> CompactTx {
    let stranger = extfvk_of(&[9; 32]);
    CompactTx {
        hash: random_bytes(rng),
        spends: vec![CompactSpend { nf: random_bytes(rng) }],
        outputs: vec![output_to(&stranger, 3, rng)],
    }
}

/// A block with an unrelated transaction, then one spending `nf` and paying
/// `value` to `extfvk`.
fn fake_compact_block(height: u64, nf: [u8; 32], extfvk: &ExtendedFullViewingKey, value: u64) -> CompactBlock {
    let mut rng = rng();
    let first = random_compact_tx(&mut rng);
    let ours = CompactTx {
        hash: random_bytes(&mut rng),
        spends: vec![CompactSpend { nf: nf.to_vec() }],
        outputs: vec![output_to(extfvk, value, &mut rng)],
    };
    CompactBlock { height, hash: vec![0; 32], time: 0, vtx: vec![first, ours] }
}

fn empty_tree() -> Tree {
    CommitmentTree::<Node, 32>::empty()
}

#[test]
fn scan_block_with_my_tx() {
    let extfvk = extfvk_of(&[0; 32]);

    let cb = fake_compact_block(1, [0; 32], &extfvk, 5);
    assert_eq!(cb.vtx.len(), 2);

    let mut tree = empty_tree();
    let txs = scan_block(cb, &vec![extfvk], &vec![], Zip212::GracePeriod, &mut tree, &mut vec![]);
    assert_eq!(txs.len(), 1);

    let (tx, new_witnesses) = &txs[0];
    assert_eq!(tx.num_spends, 1);
    assert_eq!(tx.num_outputs, 1);
    assert_eq!(tx.shielded_spends.len(), 0);
    assert_eq!(tx.shielded_outputs.len(), 1);
    assert_eq!(tx.shielded_outputs[0].index, 0);
    assert_eq!(tx.shielded_outputs[0].account, 0);
    assert_eq!(tx.shielded_outputs[0].note.value().inner(), 5);

    // Check that the witness root matches
    assert_eq!(new_witnesses.len(), 1);
    assert_eq!(witness_root(&new_witnesses[0]), tree_root(&tree));
}

#[test]
fn scan_block_with_my_spend() {
    let extfvk = extfvk_of(&[0; 32]);
    let nf = [7; 32];
    let account = 12;

    let cb = fake_compact_block(1, nf, &extfvk, 5);
    assert_eq!(cb.vtx.len(), 2);

    let mut tree = empty_tree();
    let txs = scan_block(cb, &vec![], &vec![(nf.to_vec(), account)], Zip212::GracePeriod, &mut tree, &mut vec![]);
    assert_eq!(txs.len(), 1);

    let (tx, new_witnesses) = &txs[0];
    assert_eq!(tx.num_spends, 1);
    assert_eq!(tx.num_outputs, 1);
    assert_eq!(tx.shielded_spends.len(), 1);
    assert_eq!(tx.shielded_outputs.len(), 0);
    assert_eq!(tx.shielded_spends[0].index, 0);
    assert_eq!(tx.shielded_spends[0].nf, nf.to_vec());
    assert_eq!(tx.shielded_spends[0].account, account);
    assert_eq!(new_witnesses.len(), 0);
}

#[test]
fn tree_and_witnesses_advance_by_every_output() {
    let extfvk = extfvk_of(&[0; 32]);
    let mut tree = empty_tree();
    let first = scan_block(fake_compact_block(1, [0; 32], &extfvk, 5), &vec![extfvk.clone()], &vec![], Zip212::GracePeriod, &mut tree, &mut vec![]);
    assert_eq!(tree_size(&tree), 2);
    let mut existing = vec![first[0].1[0].clone()];
    assert_eq!(witness_pos(&existing[0]), 1);

    let second = scan_block(fake_compact_block(2, [0; 32], &extfvk, 7), &vec![extfvk], &vec![], Zip212::GracePeriod, &mut tree, &mut existing);
    assert_eq!(tree_size(&tree), 4);
    assert_eq!(witness_pos(&existing[0]), 1);
    assert_eq!(witness_root(&existing[0]), tree_root(&tree));
    assert_eq!(second.len(), 1);
    assert_eq!(witness_pos(&second[0].1[0]), 3);
    assert_eq!(witness_root(&second[0].1[0]), tree_root(&tree));
}

#[test]
fn witnesses_of_one_block_share_the_final_root() {
    let extfvk = extfvk_of(&[0; 32]);
    let mut rng = rng();
    let tx_a = CompactTx { hash: vec![1; 32], spends: vec![], outputs: vec![output_to(&extfvk, 1, &mut rng)] };
    let tx_b = CompactTx { hash: vec![2; 32], spends: vec![], outputs: vec![output_to(&extfvk, 2, &mut rng), output_to(&extfvk, 3, &mut rng)] };
    let block = CompactBlock { height: 1, hash: vec![0; 32], time: 0, vtx: vec![tx_a, tx_b] };
    let mut tree = empty_tree();
    let txs = scan_block(block, &vec![extfvk], &vec![], Zip212::GracePeriod, &mut tree, &mut vec![]);
    assert_eq!(txs.len(), 2);
    assert_eq!(txs[0].0.index, 0);
    assert_eq!(txs[1].0.index, 1);
    assert_eq!(witness_pos(&txs[0].1[0]), 0);
    assert_eq!(witness_pos(&txs[1].1[0]), 1);
    assert_eq!(witness_pos(&txs[1].1[1]), 2);
    let root = tree_root(&tree);
    assert_eq!(witness_root(&txs[0].1[0]), root);
    assert_eq!(witness_root(&txs[1].1[0]), root);
    assert_eq!(witness_root(&txs[1].1[1]), root);
}

#[test]
fn output_is_change_when_its_account_spends_in_the_same_tx() {
    let extfvk = extfvk_of(&[0; 32]);
    let nf = vec![4u8; 32];
    let mut rng = rng();
    let tx = CompactTx {
        hash: vec![1; 32],
        spends: vec![CompactSpend { nf: nf.clone() }],
        outputs: vec![output_to(&extfvk_of(&[5; 32]), 2, &mut rng), output_to(&extfvk, 3, &mut rng)],
    };
    let block = CompactBlock { height: 1, hash: vec![0; 32], time: 0, vtx: vec![tx] };
    let mut tree = empty_tree();
    let txs = scan_block(block, &vec![extfvk], &vec![(nf, 0)], Zip212::GracePeriod, &mut tree, &mut vec![]);
    assert_eq!(txs.len(), 1);
    assert_eq!(txs[0].0.shielded_spends.len(), 1);
    assert_eq!(txs[0].0.shielded_outputs.len(), 1);
    assert_eq!(txs[0].0.shielded_outputs[0].index, 1);
    assert!(txs[0].0.shielded_outputs[0].is_change);
}

#[test]
fn output_without_own_spend_is_not_change() {
    let extfvk = extfvk_of(&[0; 32]);
    let mut rng = rng();
    let tx = CompactTx {
        hash: vec![1; 32],
        spends: vec![CompactSpend { nf: vec![4u8; 32] }],
        outputs: vec![output_to(&extfvk, 3, &mut rng)],
    };
    let block = CompactBlock { height: 1, hash: vec![0; 32], time: 0, vtx: vec![tx] };
    let mut tree = empty_tree();
    // The tracked nullifier belongs to another account.
    let txs = scan_block(block, &vec![extfvk], &vec![(vec![4u8; 32], 3)], Zip212::GracePeriod, &mut tree, &mut vec![]);
    assert_eq!(txs[0].0.shielded_spends[0].account, 3);
    assert!(!txs[0].0.shielded_outputs[0].is_change);
}

#[test]
fn non_canonical_commitment_is_skipped_without_append() {
    let extfvk = extfvk_of(&[0; 32]);
    let mut rng = rng();
    let mut out = output_to(&extfvk, 3, &mut rng);
    out.cmu = vec![0xff; 32];
    let block = CompactBlock { height: 1, hash: vec![0; 32], time: 0, vtx: vec![CompactTx { hash: vec![1; 32], spends: vec![], outputs: vec![out] }] };
    let mut tree = empty_tree();
    let txs = scan_block(block, &vec![extfvk], &vec![], Zip212::GracePeriod, &mut tree, &mut vec![]);
    assert!(txs.is_empty());
    assert_eq!(tree_size(&tree), 0);
}

#[test]
fn invalid_epk_still_takes_a_tree_position() {
    let extfvk = extfvk_of(&[0; 32]);
    let mut rng = rng();
    let mut out = output_to(&extfvk, 3, &mut rng);
    out.epk = vec![0xff; 32];
    let block = CompactBlock { height: 1, hash: vec![0; 32], time: 0, vtx: vec![CompactTx { hash: vec![1; 32], spends: vec![], outputs: vec![out] }] };
    let mut tree = empty_tree();
    let txs = scan_block(block, &vec![extfvk], &vec![], Zip212::GracePeriod, &mut tree, &mut vec![]);
    assert!(txs.is_empty());
    assert_eq!(tree_size(&tree), 1);
}

#[test]
fn find_account_takes_the_first_match() {
    let nfs = vec![(vec![1u8; 32], 4), (vec![2u8; 32], 5), (vec![2u8; 32], 6)];
    assert_eq!(find_account(&nfs, &vec![2u8; 32]), Some(5));
    assert_eq!(find_account(&nfs, &vec![1u8; 32]), Some(4));
    assert_eq!(find_account(&nfs, &vec![3u8; 32]), None);
    assert_eq!(find_account(&vec![], &vec![3u8; 32]), None);
}

#[test]
fn find_spends_keeps_tracked_ones_in_order() {
    let nfs = vec![(vec![1u8; 32], 4), (vec![2u8; 32], 5)];
    let spends = vec![
        CompactSpend { nf: vec![2u8; 32] },
        CompactSpend { nf: vec![9u8; 32] },
        CompactSpend { nf: vec![1u8; 32] },
    ];
    let found = find_spends(&spends, &nfs);
    assert_eq!(found.len(), 2);
    assert_eq!((found[0].index, found[0].account), (0, 5));
    assert_eq!(found[0].nf, vec![2u8; 32]);
    assert_eq!((found[1].index, found[1].account), (2, 4));
    assert_eq!(found[1].nf, vec![1u8; 32]);
}

#[test]
fn the_lowest_decrypting_account_wins() {
    let extfvk = extfvk_of(&[0; 32]);
    let other = extfvk_of(&[3; 32]);
    let mut rng = rng();
    let tx = CompactTx { hash: vec![1; 32], spends: vec![], outputs: vec![output_to(&extfvk, 3, &mut rng)] };
    let block = CompactBlock { height: 1, hash: vec![0; 32], time: 0, vtx: vec![tx] };
    let mut tree = empty_tree();
    let txs = scan_block(block, &vec![other, extfvk.clone(), extfvk], &vec![], Zip212::GracePeriod, &mut tree, &mut vec![]);
    assert_eq!(txs.len(), 1);
    assert_eq!(txs[0].0.shielded_outputs[0].account, 1);
}

#[test]
fn keys_of_accounts_are_their_incoming_viewing_keys() {
    let keys = viewing_keys(&vec![extfvk_of(&[0; 32]), extfvk_of(&[1; 32])]);
    assert_eq!(keys.len(), 2);
    assert_eq!(keys[0].len(), 32);
    assert_ne!(keys[0], keys[1]);
}
