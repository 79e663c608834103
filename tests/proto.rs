use incrementalmerkletree::frontier::CommitmentTree;
use incrementalmerkletree::witness::IncrementalWitness;
use sapling_crypto::Node;

use sapling_scan::encoding::{
    read_tree, read_witness, tree_from_bytes, tree_to_bytes, witness_from_bytes, witness_to_bytes, write_tree,
    TreeParts,
};
use sapling_scan::proto::{decode_compact_block, read_fields};
use sapling_scan::sapling::{tree_root, witness_pos, witness_root};

fn varint(mut v: u64, out: &mut Vec<u8>) {
    while v >= 128 {
        out.push((v as u8 & 0x7f) | 0x80);
        v >>= 7;
    }
    out.push(v as u8);
}

fn bytes_field(number: u64, payload: &[u8], out: &mut Vec<u8>) {
    varint(number << 3 | 2, out);
    varint(payload.len() as u64, out);
    out.extend_from_slice(payload);
}

fn varint_field(number: u64, v: u64, out: &mut Vec<u8>) {
    varint(number << 3, out);
    varint(v, out);
}

fn output_bytes(cmu: &[u8], epk: &[u8], ct: &[u8]) -> Vec<u8> {
    let mut o = vec![];
    bytes_field(1, cmu, &mut o);
    bytes_field(2, epk, &mut o);
    bytes_field(3, ct, &mut o);
    o
}

fn tx_bytes(hash: &[u8], nfs: &[&[u8]], outputs: &[Vec<u8>]) -> Vec<u8> {
    let mut t = vec![];
    varint_field(1, 3, &mut t);
    bytes_field(2, hash, &mut t);
    for nf in nfs {
        let mut s = vec![];
        bytes_field(1, nf, &mut s);
        bytes_field(4, &s, &mut t);
    }
    for o in outputs {
        bytes_field(5, o, &mut t);
    }
    t
}

fn block_bytes(height: u64, hash: &[u8], time: u64, txs: &[Vec<u8>]) -> Vec<u8> {
    let mut b = vec![];
    varint_field(1, 1, &mut b);
    varint_field(2, height, &mut b);
    bytes_field(3, hash, &mut b);
    bytes_field(4, &[9; 32], &mut b);
    varint_field(5, time, &mut b);
    for t in txs {
        bytes_field(7, t, &mut b);
    }
    b
}

#[test]
fn decodes_a_compact_block() {
    let out = output_bytes(&[1; 32], &[2; 32], &[3; 52]);
    let tx = tx_bytes(&[4; 32], &[&[5; 32], &[6; 32]], &[out]);
    let data = block_bytes(419_200, &[7; 32], 1_600_000_000, &[tx.clone(), tx]);
    let b = decode_compact_block(&data).unwrap();
    assert_eq!(b.height, 419_200);
    assert_eq!(b.hash, vec![7; 32]);
    assert_eq!(b.time, 1_600_000_000);
    assert_eq!(b.vtx.len(), 2);
    let t = &b.vtx[1];
    assert_eq!(t.hash, vec![4; 32]);
    assert_eq!(t.spends.len(), 2);
    assert_eq!(t.spends[0].nf, vec![5; 32]);
    assert_eq!(t.spends[1].nf, vec![6; 32]);
    assert_eq!(t.outputs.len(), 1);
    assert_eq!(t.outputs[0].cmu, vec![1; 32]);
    assert_eq!(t.outputs[0].epk, vec![2; 32]);
    assert_eq!(t.outputs[0].ciphertext, vec![3; 52]);
}

#[test]
fn empty_input_is_the_default_block() {
    let b = decode_compact_block(&vec![]).unwrap();
    assert_eq!(b.height, 0);
    assert!(b.hash.is_empty());
    assert!(b.vtx.is_empty());
}

#[test]
fn unknown_fields_are_skipped_and_last_value_wins() {
    let mut data = block_bytes(5, &[1; 32], 0, &[]);
    varint_field(20, 77, &mut data);
    varint(21 << 3 | 5, &mut data);
    data.extend_from_slice(&[1, 2, 3, 4]);
    varint(22 << 3 | 1, &mut data);
    data.extend_from_slice(&[1, 2, 3, 4, 5, 6, 7, 8]);
    varint_field(2, 6, &mut data);
    let b = decode_compact_block(&data).unwrap();
    assert_eq!(b.height, 6);
}

#[test]
fn time_keeps_the_low_32_bits() {
    let data = block_bytes(1, &[], (1u64 << 32) + 5, &[]);
    assert_eq!(decode_compact_block(&data).unwrap().time, 5);
}

#[test]
fn malformed_blocks_are_refused() {
    let data = block_bytes(5, &[1; 32], 0, &[]);
    // Truncated.
    assert!(decode_compact_block(&data[..data.len() - 1].to_vec()).is_none());
    // Height with the bytes wire type.
    let mut wrong = vec![];
    bytes_field(2, &[1], &mut wrong);
    assert!(decode_compact_block(&wrong).is_none());
    // Field number zero.
    assert!(decode_compact_block(&vec![0, 0]).is_none());
    // A varint longer than ten bytes.
    let mut long = vec![2 << 3];
    long.extend_from_slice(&[0x80; 10]);
    long.push(1);
    assert!(decode_compact_block(&long).is_none());
    // A transaction that does not parse.
    let bad_tx = block_bytes(1, &[], 0, &[vec![0xff]]);
    assert!(decode_compact_block(&bad_tx).is_none());
}

#[test]
fn fields_record_payload_ranges() {
    let mut data = vec![];
    varint_field(1, 300, &mut data);
    bytes_field(2, &[8, 9], &mut data);
    let fs = read_fields(&data).unwrap();
    assert_eq!(fs.len(), 2);
    assert_eq!((fs[0].number, fs[0].wire, fs[0].value), (1, 0, 300));
    assert_eq!((fs[1].number, fs[1].wire, fs[1].start, fs[1].end), (2, 2, 5, 7));
}

fn tree_with(n: u8) -> CommitmentTree<Node, 32> {
    let mut t = CommitmentTree::<Node, 32>::empty();
    for i in 0..n {
        t.append(Node::from_bytes([i; 32]).unwrap()).unwrap();
    }
    t
}

#[test]
fn tree_round_trips_through_its_stored_form() {
    for n in [0u8, 1, 2, 3, 7, 12] {
        let t = tree_with(n);
        let bytes = tree_to_bytes(&t);
        let back = tree_from_bytes(&bytes).unwrap();
        assert_eq!(tree_root(&back), tree_root(&t));
        assert_eq!(tree_to_bytes(&back), bytes);
    }
}

#[test]
fn witness_round_trips_through_its_stored_form() {
    let t = tree_with(3);
    let mut w = IncrementalWitness::from_tree(t).unwrap();
    for i in 10..15u8 {
        w.append(Node::from_bytes([i; 32]).unwrap()).unwrap();
    }
    let bytes = witness_to_bytes(&w);
    let back = witness_from_bytes(&bytes).unwrap();
    assert_eq!(witness_root(&back), witness_root(&w));
    assert_eq!(witness_pos(&back), 2);
    assert_eq!(witness_to_bytes(&back), bytes);
}

#[test]
fn stored_tree_layout() {
    let p = TreeParts { left: Some(vec![1; 32]), right: None, parents: vec![None, Some(vec![2; 32])] };
    let bytes = write_tree(&p);
    let mut expected = vec![1];
    expected.extend_from_slice(&[1; 32]);
    expected.extend_from_slice(&[0, 2, 0, 1]);
    expected.extend_from_slice(&[2; 32]);
    assert_eq!(bytes, expected);
    let back = read_tree(&bytes).unwrap();
    assert_eq!(back.left, p.left);
    assert_eq!(back.right, p.right);
    assert_eq!(back.parents, p.parents);
}

#[test]
fn malformed_stored_forms_are_refused() {
    assert!(read_tree(&vec![]).is_none());
    assert!(read_tree(&vec![2, 0, 0]).is_none());
    assert!(read_tree(&vec![1, 0, 0]).is_none());
    assert!(read_tree(&vec![0, 0, 0, 9]).is_none());
    assert!(read_witness(&vec![0, 0, 0]).is_none());
    assert!(read_witness(&vec![0, 0, 0, 0, 2]).is_none());
    // A non-canonical node converts to no tree.
    assert!(tree_from_bytes(&{
        let mut b = vec![1];
        b.extend_from_slice(&[0xff; 32]);
        b.extend_from_slice(&[0, 0]);
        b
    })
    .is_none());
}

#[test]
fn frontiers_that_appends_cannot_produce_are_refused() {
    // A right leaf without a left one.
    let mut right_only = vec![0, 1];
    right_only.extend_from_slice(&[3; 32]);
    right_only.push(0);
    assert!(read_tree(&right_only).is_some());
    assert!(tree_from_bytes(&right_only).is_none());
    // A parent without leaves.
    let mut parent_only = vec![0, 0, 1, 1];
    parent_only.extend_from_slice(&[3; 32]);
    assert!(tree_from_bytes(&parent_only).is_none());
    // A witness of an empty tree.
    assert!(read_witness(&vec![0, 0, 0, 0, 0]).is_some());
    assert!(witness_from_bytes(&vec![0, 0, 0, 0, 0]).is_none());
    // A cursor with neither a right leaf nor a filled root.
    let mut cursor_early = vec![1];
    cursor_early.extend_from_slice(&[3; 32]);
    cursor_early.extend_from_slice(&[0, 0, 0, 1, 1]);
    cursor_early.extend_from_slice(&[4; 32]);
    cursor_early.extend_from_slice(&[0, 0]);
    assert!(read_witness(&cursor_early).is_some());
    assert!(witness_from_bytes(&cursor_early).is_none());
}
