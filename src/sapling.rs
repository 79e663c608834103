//! The Sapling primitives the scanner consumes: note-commitment tree, incremental
//! witnesses, commitment and point parsing, viewing keys and compact trial decryption.
//!
//! Every item here is trusted: its contract is what the outside crate documents.
use vstd::prelude::*;

use incrementalmerkletree::frontier::CommitmentTree;
use incrementalmerkletree::witness::IncrementalWitness;
use sapling_crypto::keys::PreparedIncomingViewingKey;
use sapling_crypto::note::ExtractedNoteCommitment;
use sapling_crypto::note_encryption::{CompactOutputDescription, Zip212Enforcement};
use sapling_crypto::zip32::ExtendedFullViewingKey;
use sapling_crypto::{Node, Note, PaymentAddress, SaplingIvk};

use crate::encoding::{tree_parts_ok, tree_view, TreeParts};

verus! {

/// The number of leaves a full depth-32 tree holds.
pub open spec fn tree_capacity() -> nat {
    0x1_0000_0000
}

/// The Sapling note-commitment tree.
pub type Tree = CommitmentTree<Node, 32>;

/// An incremental witness for one leaf of a [`Tree`].
pub type Witness = IncrementalWitness<Node, 32>;

#[verifier::external_type_specification]
#[verifier::external_body]
#[verifier::reject_recursive_types(H)]
pub struct ExCommitmentTree<H, const DEPTH: u8>(CommitmentTree<H, DEPTH>);

#[verifier::external_type_specification]
#[verifier::external_body]
#[verifier::reject_recursive_types(H)]
pub struct ExIncrementalWitness<H, const DEPTH: u8>(IncrementalWitness<H, DEPTH>);

#[verifier::external_type_specification]
#[verifier::external_body]
pub struct ExNode(Node);

#[verifier::external_type_specification]
#[verifier::external_body]
pub struct ExExtendedFullViewingKey(ExtendedFullViewingKey);

#[verifier::external_type_specification]
#[verifier::external_body]
pub struct ExNote(Note);

#[verifier::external_type_specification]
#[verifier::external_body]
pub struct ExPaymentAddress(PaymentAddress);

/// The leaves appended to a tree, oldest first, each as its 32-byte encoding.
pub uninterp spec fn tree_leaves(t: Tree) -> Seq<Seq<u8>>;

/// The leaves a witness has observed, oldest first: those of the tree it was
/// taken from, then every leaf appended to it since.
pub uninterp spec fn witness_leaves(w: Witness) -> Seq<Seq<u8>>;

/// The position of the leaf that a witness authenticates.
pub uninterp spec fn witness_position(w: Witness) -> nat;

/// The depth-32 Merkle root over a sequence of leaves, padded on the right with
/// the empty-subtree roots.
pub uninterp spec fn merkle_root(leaves: Seq<Seq<u8>>) -> Seq<u8>;

/// Whether 32 bytes encode a Jubjub point of the prime-order subgroup.
pub uninterp spec fn epk_valid(b: Seq<u8>) -> bool;

/// Whether a compact ciphertext decrypts, under the incoming viewing key
/// encoded by `ivk`, to a note that commits to `cmu`, with ephemeral key `epk`.
pub uninterp spec fn compact_decrypts(
    ivk: Seq<u8>,
    epk: Seq<u8>,
    cmu: Seq<u8>,
    ct: Seq<u8>,
    zip212: Zip212,
) -> bool;

/// Which note plaintext versions trial decryption accepts.
#[derive(Clone, Copy, Debug, PartialEq, Eq, Structural)]
pub enum Zip212 {
    Off,
    GracePeriod,
    On,
}

/// The integer that a byte string encodes in little-endian order.
pub open spec fn le_value(b: Seq<u8>) -> nat
    decreases b.len(),
{
    if b.len() == 0 {
        0
    } else {
        b[0] as nat + 256 * le_value(b.drop_first())
    }
}

/// The order of the BLS12-381 scalar field, the field that note commitments live in.
pub open spec fn scalar_modulus() -> nat {
    0xffff_ffff_0000_0001
        + 0x53bd_a402_fffe_5bfe * 0x1_0000_0000_0000_0000
        + 0x3339_d808_09a1_d805 * 0x1_0000_0000_0000_0000 * 0x1_0000_0000_0000_0000
        + 0x73ed_a753_299d_7d48 * 0x1_0000_0000_0000_0000 * 0x1_0000_0000_0000_0000
            * 0x1_0000_0000_0000_0000
}

/// Whether `b` is the canonical encoding of a note commitment: 32 bytes whose
/// little-endian value is below the field order.
pub open spec fn cmu_canonical(b: Seq<u8>) -> bool {
    b.len() == 32 && le_value(b) < scalar_modulus()
}

/// Relies on `ExtractedNoteCommitment::from_bytes`, which accepts exactly the
/// canonical little-endian encodings of a field element.
#[verifier::external_body]
pub(crate) fn cmu_is_canonical(b: &Vec<u8>) -> (r: bool)
    requires
        b@.len() == 32,
    ensures
        r == cmu_canonical(b@),
{
    let bytes: [u8; 32] = b.as_slice().try_into().unwrap();
    ExtractedNoteCommitment::from_bytes(&bytes).is_some().into()
}

/// Relies on `CommitmentTree::append`: it adds the leaf unless the tree already
/// holds `2^32` leaves, in which case it fails and leaves the tree as it was.
#[verifier::external_body]
pub(crate) fn tree_append(t: &mut Tree, leaf: &Vec<u8>) -> (r: Result<(), ()>)
    requires
        cmu_canonical(leaf@),
        frontier_wf(tree_frontier(*old(t))),
    ensures
        frontier_wf(tree_frontier(*final(t))),
        r.is_ok() == (tree_leaves(*old(t)).len() < tree_capacity()),
        r.is_ok() ==> tree_leaves(*final(t)) == tree_leaves(*old(t)).push(leaf@),
        r.is_err() ==> tree_leaves(*final(t)) == tree_leaves(*old(t)),
{
    let bytes: [u8; 32] = leaf.as_slice().try_into().unwrap();
    t.append(Node::from_bytes(bytes).unwrap())
}

/// Relies on `CommitmentTree::root`: the root over the appended leaves.
#[verifier::external_body]
pub fn tree_root(t: &Tree) -> (r: Vec<u8>)
    ensures
        r@ == merkle_root(tree_leaves(*t)),
{
    t.root().to_bytes().to_vec()
}

/// Relies on `IncrementalWitness::from_tree`: a witness for the most recent leaf,
/// or none for an empty tree.
#[verifier::external_body]
pub(crate) fn witness_from_tree(t: &Tree) -> (r: Option<Witness>)
    requires
        frontier_wf(tree_frontier(*t)),
    ensures
        r matches Some(w) ==> witness_wf(witness_frontier(w)),
        r.is_some() == (tree_leaves(*t).len() > 0),
        r matches Some(w) ==> witness_leaves(w) == tree_leaves(*t)
            && witness_position(w) + 1 == tree_leaves(*t).len(),
{
    IncrementalWitness::from_tree(t.clone())
}

/// Relies on `IncrementalWitness::append`: it tracks one more leaf of the tree,
/// failing only once the tree it follows is full; the witnessed position stays.
#[verifier::external_body]
pub(crate) fn witness_append(w: &mut Witness, leaf: &Vec<u8>) -> (r: Result<(), ()>)
    requires
        cmu_canonical(leaf@),
        witness_wf(witness_frontier(*old(w))),
    ensures
        witness_wf(witness_frontier(*final(w))),
        witness_leaves(*old(w)).len() < tree_capacity() ==> r.is_ok(),
        r.is_ok() ==> witness_leaves(*final(w)) == witness_leaves(*old(w)).push(leaf@),
        r.is_err() ==> witness_leaves(*final(w)) == witness_leaves(*old(w)),
        witness_position(*final(w)) == witness_position(*old(w)),
{
    let bytes: [u8; 32] = leaf.as_slice().try_into().unwrap();
    w.append(Node::from_bytes(bytes).unwrap())
}

/// Relies on `IncrementalWitness::root`: the root of the tree made of the leaves
/// the witness has observed.
#[verifier::external_body]
pub fn witness_root(w: &Witness) -> (r: Vec<u8>)
    requires
        witness_wf(witness_frontier(*w)),
    ensures
        r@ == merkle_root(witness_leaves(*w)),
{
    w.root().to_bytes().to_vec()
}

/// Relies on `CommitmentTree::size`: the number of leaves appended.
#[verifier::external_body]
pub fn tree_size(t: &Tree) -> (r: usize)
    requires
        frontier_wf(tree_frontier(*t)),
    ensures
        r == tree_leaves(*t).len(),
{
    t.size()
}

/// Relies on `IncrementalWitness::tip_position`: the position of the last leaf
/// the witness has observed.
#[verifier::external_body]
pub fn witness_tip(w: &Witness) -> (r: u64)
    requires
        witness_wf(witness_frontier(*w)),
    ensures
        r + 1 == witness_leaves(*w).len(),
{
    u64::from(w.tip_position())
}

/// Relies on `IncrementalWitness::witnessed_position`.
#[verifier::external_body]
pub fn witness_pos(w: &Witness) -> (r: u64)
    requires
        witness_wf(witness_frontier(*w)),
    ensures
        r == witness_position(*w),
{
    u64::from(w.witnessed_position())
}

/// Relies on `jubjub::AffinePoint::from_bytes` and `is_torsion_free`: whether
/// the bytes decode to a point of the prime-order subgroup.
#[verifier::external_body]
pub(crate) fn epk_is_valid(b: &Vec<u8>) -> (r: bool)
    requires
        b@.len() == 32,
    ensures
        r == epk_valid(b@),
{
    let bytes: [u8; 32] = b.as_slice().try_into().unwrap();
    match Option::<jubjub::AffinePoint>::from(jubjub::AffinePoint::from_bytes(bytes)) {
        Some(p) => p.is_torsion_free().into(),
        None => false,
    }
}

/// Relies on `ViewingKey::ivk` and `SaplingIvk::to_repr`: the 32-byte encoding
/// of an account's incoming viewing key.
#[verifier::external_body]
pub fn viewing_key_bytes(extfvk: &ExtendedFullViewingKey) -> (r: Vec<u8>)
    ensures
        r@.len() == 32,
{
    extfvk.fvk().vk.ivk().to_repr().to_vec()
}

/// Relies on `try_sapling_compact_note_decryption`: the note and its recipient
/// when the compact ciphertext decrypts under the key that `ivk` encodes; the
/// key and commitment are converted with `SaplingIvk::from_bytes` and
/// `ExtractedNoteCommitment::from_bytes`.
#[verifier::external_body]
pub(crate) fn try_compact_decrypt(
    ivk: &Vec<u8>,
    epk: &Vec<u8>,
    cmu: &Vec<u8>,
    ct: &Vec<u8>,
    zip212: Zip212,
) -> (r: Option<(Note, PaymentAddress)>)
    requires
        ivk@.len() == 32,
        epk@.len() == 32,
        cmu@.len() == 32,
        ct@.len() == 52,
    ensures
        r.is_some() == compact_decrypts(ivk@, epk@, cmu@, ct@, zip212),
{
    let ivk = Option::<SaplingIvk>::from(SaplingIvk::from_bytes(ivk.as_slice().try_into().unwrap()))?;
    let cmu = Option::from(ExtractedNoteCommitment::from_bytes(cmu.as_slice().try_into().unwrap()))?;
    let z = match zip212 {
        Zip212::Off => Zip212Enforcement::Off,
        Zip212::GracePeriod => Zip212Enforcement::GracePeriod,
        Zip212::On => Zip212Enforcement::On,
    };
    let ephemeral_key = zcash_note_encryption::EphemeralKeyBytes(epk.as_slice().try_into().unwrap());
    let output = CompactOutputDescription { ephemeral_key, cmu, enc_ciphertext: ct.as_slice().try_into().unwrap() };
    sapling_crypto::note_encryption::try_sapling_compact_note_decryption(&PreparedIncomingViewingKey::new(&ivk), &output, z)
}

/// Relies on `Note::nf`: the note's nullifier, derived from the account's
/// nullifier-deriving key and the note's tree position.
#[verifier::external_body]
pub(crate) fn note_nullifier(note: &Note, extfvk: &ExtendedFullViewingKey, position: u64) -> (r: Vec<
    u8,
>)
    ensures
        r@.len() == 32,
{
    note.nf(extfvk.fvk().vk.nk(), position).0.to_vec()
}

/// A tree's frontier by value: its left and right leaves and its parents.
pub type FrontierView = (Option<Seq<u8>>, Option<Seq<u8>>, Seq<Option<Seq<u8>>>);

/// A witness by value: the frontier of the tree it was taken from, the subtree
/// roots completed since, and the frontier of the subtree being filled.
pub type WitnessView = (FrontierView, Seq<Seq<u8>>, Option<FrontierView>);

/// The frontier a tree holds.
pub uninterp spec fn tree_frontier(t: Tree) -> FrontierView;

/// The parts a witness holds.
pub uninterp spec fn witness_frontier(w: Witness) -> WitnessView;

pub open spec fn node_canonical(o: Option<Seq<u8>>) -> bool {
    match o {
        None => true,
        Some(n) => cmu_canonical(n),
    }
}

/// The frontiers that appends produce: fewer parents than levels, canonical
/// nodes, and no right leaf or parent without a left leaf.
pub open spec fn frontier_wf(v: FrontierView) -> bool {
    &&& v.2.len() < 32
    &&& node_canonical(v.0)
    &&& node_canonical(v.1)
    &&& forall|i: int| 0 <= i < v.2.len() ==> node_canonical(#[trigger] v.2[i])
    &&& (v.0.is_some() || (v.1.is_none() && forall|i: int| 0 <= i < v.2.len() ==> (#[trigger] v.2[i]).is_none()))
}

/// The cursor depth that `IncrementalWitness::next_depth` reaches from level
/// `d` on, at parent `i`, with `skip` filled roots still to account for.
pub open spec fn depth_from(parents: Seq<Option<Seq<u8>>>, i: nat, skip: nat, d: nat) -> nat
    decreases parents.len() - i,
{
    if i >= parents.len() {
        d + skip
    } else if parents[i as int].is_none() {
        if skip > 0 {
            depth_from(parents, i + 1, (skip - 1) as nat, d + 1)
        } else {
            d
        }
    } else {
        depth_from(parents, i + 1, skip, d + 1)
    }
}

pub proof fn lemma_depth_step(parents: Seq<Option<Seq<u8>>>, i: nat, skip: nat, d: nat)
    requires
        i < parents.len(),
    ensures
        parents[i as int].is_none() && skip == 0 ==> depth_from(parents, i, skip, d) == d,
        parents[i as int].is_none() && skip > 0 ==> depth_from(parents, i, skip, d) == depth_from(
            parents,
            i + 1,
            (skip - 1) as nat,
            d + 1,
        ),
        parents[i as int].is_some() ==> depth_from(parents, i, skip, d) == depth_from(
            parents,
            i + 1,
            skip,
            d + 1,
        ),
{
}

/// The depth of the subtree a witness with a left leaf fills next, as
/// `IncrementalWitness::next_depth` computes it from the witness's parts.
pub open spec fn next_depth(w: WitnessView) -> nat {
    let skip = w.1.len();
    if w.0.1.is_none() {
        if skip > 0 {
            depth_from(w.0.2, 0, (skip - 1) as nat, 1)
        } else {
            0
        }
    } else {
        depth_from(w.0.2, 0, skip, 1)
    }
}

/// Whether a frontier is a full tree of depth `d`.
pub open spec fn complete_at(c: FrontierView, d: nat) -> bool {
    &&& c.0.is_some()
    &&& c.1.is_some()
    &&& forall|i: int| 0 <= i < d - 1 ==> i < c.2.len() && (#[trigger] c.2[i]).is_some()
}

/// The witnesses that `IncrementalWitness::from_tree` and appends produce: a
/// non-empty well-formed tree, at most one filled root per level, and a cursor
/// only while a subtree of depth `next_depth`, between 1 and 31, is partly filled.
pub open spec fn witness_wf(w: WitnessView) -> bool {
    &&& frontier_wf(w.0)
    &&& w.0.0.is_some()
    &&& w.1.len() <= 32
    &&& forall|i: int| 0 <= i < w.1.len() ==> cmu_canonical(#[trigger] w.1[i])
    &&& match w.2 {
        None => true,
        Some(c) => {
            &&& 0 < next_depth(w) < 32
            &&& frontier_wf(c)
            &&& c.0.is_some()
            &&& c.2.len() < next_depth(w)
            &&& !complete_at(c, next_depth(w))
        },
    }
}

/// Whether every witness of `ws` is well formed.
pub open spec fn witnesses_wf(ws: Seq<Witness>) -> bool {
    forall|i: int| 0 <= i < ws.len() ==> witness_wf(witness_frontier(#[trigger] ws[i]))
}

/// Relies on `CommitmentTree::{left, right, parents}` and `Node::to_bytes`: the
/// tree's frontier, each node as its 32-byte encoding; `from_parts` and
/// `append` keep fewer parents than levels.
#[verifier::external_body]
pub(crate) fn tree_into_parts(t: &Tree) -> (r: TreeParts)
    ensures
        tree_parts_ok(r),
        tree_view(r) == tree_frontier(*t),
{
    let node = |n: &Node| n.to_bytes().to_vec();
    TreeParts {
        left: t.left().as_ref().map(node),
        right: t.right().as_ref().map(node),
        parents: t.parents().iter().map(|p| p.as_ref().map(node)).collect(),
    }
}

/// Relies on `CommitmentTree::from_parts` and `Node::from_bytes`, which accept
/// canonical nodes and fewer parents than levels.
#[verifier::external_body]
pub(crate) fn tree_from_parts(p: &TreeParts) -> (r: Tree)
    requires
        tree_parts_ok(*p),
        frontier_wf(tree_view(*p)),
    ensures
        tree_frontier(r) == tree_view(*p),
{
    let node = |b: &Vec<u8>| Node::from_bytes(b.as_slice().try_into().unwrap()).unwrap();
    let left = p.left.as_ref().map(node);
    let right = p.right.as_ref().map(node);
    let parents = p.parents.iter().map(|o| o.as_ref().map(node)).collect();
    CommitmentTree::from_parts(left, right, parents).unwrap()
}

/// Relies on `IncrementalWitness::{tree, filled, cursor}`: the tree the
/// witness was taken from, the subtree roots completed since (as canonical
/// 32-byte encodings) and the subtree being filled.
#[verifier::external_body]
pub(crate) fn witness_pieces(w: &Witness) -> (r: (Tree, Vec<Vec<u8>>, Option<Tree>))
    ensures
        witness_frontier(*w).0 == tree_frontier(r.0),
        witness_frontier(*w).1 == r.1@.map_values(|n: Vec<u8>| n@),
        witness_frontier(*w).2 == match r.2 {
            None => None,
            Some(c) => Some(tree_frontier(c)),
        },
{
    let filled = w.filled().iter().map(|n| n.to_bytes().to_vec()).collect();
    (w.tree().clone(), filled, w.cursor().clone())
}

/// Relies on `IncrementalWitness::from_parts` and `Node::from_bytes`: a
/// witness from its parts, which are not all empty.
#[verifier::external_body]
pub(crate) fn witness_from_pieces(tree: Tree, filled: &Vec<Vec<u8>>, cursor: Option<Tree>) -> (r: Witness)
    requires
        witness_wf(
            (
                tree_frontier(tree),
                filled@.map_values(|n: Vec<u8>| n@),
                match cursor {
                    None => None,
                    Some(c) => Some(tree_frontier(c)),
                },
            ),
        ),
    ensures
        witness_frontier(r) == (
            tree_frontier(tree),
            filled@.map_values(|n: Vec<u8>| n@),
            match cursor {
                None => None,
                Some(c) => Some(tree_frontier(c)),
            },
        ),
{
    let filled = filled.iter().map(|b| Node::from_bytes(b.as_slice().try_into().unwrap()).unwrap()).collect();
    IncrementalWitness::from_parts(tree, filled, cursor).unwrap()
}

} // verus!
