//! The compact block format: the fields of a block that trial decryption and
//! spend detection need, and the sequence of tree leaves a block contributes.
use vstd::prelude::*;

use crate::sapling::cmu_canonical;

verus! {

/// A shielded spend: the nullifier it reveals.
pub struct CompactSpend {
    pub nf: Vec<u8>,
}

/// A shielded output: note commitment, ephemeral key and the first 52 bytes of
/// the note ciphertext.
pub struct CompactOutput {
    pub cmu: Vec<u8>,
    pub epk: Vec<u8>,
    pub ciphertext: Vec<u8>,
}

/// A transaction: its id and its shielded spends and outputs, in order.
pub struct CompactTx {
    pub hash: Vec<u8>,
    pub spends: Vec<CompactSpend>,
    pub outputs: Vec<CompactOutput>,
}

/// A block: height, hash, time and its transactions in block order.
pub struct CompactBlock {
    pub height: u64,
    pub hash: Vec<u8>,
    pub time: u32,
    pub vtx: Vec<CompactTx>,
}

/// The leaves that a run of outputs adds to the tree: the commitment of every
/// output whose commitment is canonical, in order.
pub open spec fn output_leaves(outs: Seq<CompactOutput>) -> Seq<Seq<u8>>
    decreases outs.len(),
{
    if outs.len() == 0 {
        seq![]
    } else {
        let prev = output_leaves(outs.drop_last());
        if cmu_canonical(outs.last().cmu@) {
            prev.push(outs.last().cmu@)
        } else {
            prev
        }
    }
}

/// The leaves that a run of transactions adds to the tree, in block order.
pub open spec fn tx_leaves(txs: Seq<CompactTx>) -> Seq<Seq<u8>>
    decreases txs.len(),
{
    if txs.len() == 0 {
        seq![]
    } else {
        tx_leaves(txs.drop_last()) + output_leaves(txs.last().outputs@)
    }
}

/// The leaves that a block adds to the tree.
pub open spec fn block_leaves(b: CompactBlock) -> Seq<Seq<u8>> {
    tx_leaves(b.vtx@)
}

/// The number of outputs in a run of transactions.
pub open spec fn tx_output_count(txs: Seq<CompactTx>) -> nat
    decreases txs.len(),
{
    if txs.len() == 0 {
        0
    } else {
        tx_output_count(txs.drop_last()) + txs.last().outputs@.len()
    }
}

/// The number of outputs in a block.
pub open spec fn block_output_count(b: CompactBlock) -> nat {
    tx_output_count(b.vtx@)
}

/// Whether every output of a run of transactions has a canonical commitment.
pub open spec fn all_cmus_canonical(txs: Seq<CompactTx>) -> bool {
    forall|t: int, o: int|
        0 <= t < txs.len() && 0 <= o < txs[t].outputs@.len()
            ==> #[trigger] cmu_canonical(txs[t].outputs@[o].cmu@)
}

pub proof fn lemma_output_leaves_len(outs: Seq<CompactOutput>)
    ensures
        output_leaves(outs).len() <= outs.len(),
        (forall|o: int| 0 <= o < outs.len() ==> #[trigger] cmu_canonical(outs[o].cmu@))
            ==> output_leaves(outs).len() == outs.len(),
    decreases outs.len(),
{
    if outs.len() > 0 {
        lemma_output_leaves_len(outs.drop_last());
        assert forall|o: int| 0 <= o < outs.drop_last().len() implies outs.drop_last()[o] == outs[o] by {}
    }
}

pub proof fn lemma_tx_leaves_len(txs: Seq<CompactTx>)
    ensures
        tx_leaves(txs).len() <= tx_output_count(txs),
        all_cmus_canonical(txs) ==> tx_leaves(txs).len() == tx_output_count(txs),
    decreases txs.len(),
{
    if txs.len() > 0 {
        let last = txs.last();
        lemma_tx_leaves_len(txs.drop_last());
        lemma_output_leaves_len(last.outputs@);
        if all_cmus_canonical(txs) {
            assert forall|t: int, o: int|
                0 <= t < txs.drop_last().len() && 0 <= o < txs.drop_last()[t].outputs@.len()
                implies #[trigger] cmu_canonical(txs.drop_last()[t].outputs@[o].cmu@) by {
                assert(txs.drop_last()[t] == txs[t]);
            }
            assert forall|o: int| 0 <= o < last.outputs@.len()
                implies #[trigger] cmu_canonical(last.outputs@[o].cmu@) by {
                assert(cmu_canonical(txs[txs.len() - 1].outputs@[o].cmu@));
            }
        }
    }
}

pub proof fn lemma_count_prefix(txs: Seq<CompactTx>, t: int)
    requires
        0 <= t <= txs.len(),
    ensures
        tx_output_count(txs.take(t)) <= tx_output_count(txs),
    decreases txs.len(),
{
    if t == txs.len() {
        assert(txs.take(t) =~= txs);
    } else {
        lemma_count_prefix(txs.drop_last(), t);
        assert(txs.drop_last().take(t) =~= txs.take(t));
    }
}

} // verus!
