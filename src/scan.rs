//! The per-block decisions of scanning a cache of compact blocks into a wallet:
//! height sequencing, the in-memory tree, witnesses and tracked nullifiers that
//! carry from one block to the next, and the consistency of witness anchors.
use vstd::prelude::*;

use sapling_crypto::zip32::ExtendedFullViewingKey;

use crate::compact::{block_leaves, block_output_count, CompactBlock};
use crate::encoding::{tree_is_wf, witness_is_wf};
use crate::sapling::{
    Zip212, frontier_wf, tree_frontier, witness_frontier, witness_wf, witnesses_wf,
    merkle_root, note_nullifier, tree_capacity, tree_leaves, tree_root, tree_size, witness_leaves,
    witness_pos, witness_root, witness_tip, Tree, Witness,
};
use crate::wallet::{WalletShieldedOutput, WalletShieldedSpend, WalletTx};
use crate::welding_rig::{
    block_scanned, bytes_eq, copy_bytes, scan_block_with_keys,
};

verus! {

/// The number of blocks below the last scanned height for which witnesses are kept.
pub const WITNESS_RETENTION: i32 = 100;

/// What stops a block from being scanned.
#[derive(Debug, PartialEq, Eq)]
pub enum ScanError {
    /// The next cached block is not at the expected height: `(expected, actual)`.
    InvalidHeight(i32, i32),
    /// A compact block could not be decoded.
    DecodeFailure,
    /// A stored witness does not follow the tree: `(note, height)`.
    InvalidWitnessAnchor(i64, i32),
    /// A new witness does not follow the tree: `(output index, txid, height, root)`.
    InvalidNewWitnessAnchor(usize, Vec<u8>, i32, Vec<u8>),
}

/// The first block of the network upgrade that introduced the ZIP 212 note
/// plaintext format.
pub const CANOPY_ACTIVATION_HEIGHT: i32 = 1_046_400;

/// The number of blocks after that upgrade during which both note plaintext
/// formats are accepted.
pub const ZIP212_GRACE_PERIOD: i32 = 32_256;

/// The note plaintext formats accepted in the block at `height`.
pub fn zip212_at(height: i32) -> (r: Zip212)
    ensures
        height < CANOPY_ACTIVATION_HEIGHT ==> r == Zip212::Off,
        CANOPY_ACTIVATION_HEIGHT <= height < CANOPY_ACTIVATION_HEIGHT + ZIP212_GRACE_PERIOD
            ==> r == Zip212::GracePeriod,
        CANOPY_ACTIVATION_HEIGHT + ZIP212_GRACE_PERIOD <= height ==> r == Zip212::On,
{
    if height < CANOPY_ACTIVATION_HEIGHT {
        Zip212::Off
    } else if height < CANOPY_ACTIVATION_HEIGHT + ZIP212_GRACE_PERIOD {
        Zip212::GracePeriod
    } else {
        Zip212::On
    }
}

/// The height scanning continues from: the highest scanned block, or the block
/// before activation when nothing has been scanned.
pub fn last_scanned_height(max_scanned: Option<i32>, activation_height: i32) -> (r: i32)
    requires
        activation_height > i32::MIN,
    ensures
        r == match max_scanned {
            Some(h) => h as int,
            None => activation_height - 1,
        },
{
    match max_scanned {
        Some(h) => h,
        None => activation_height - 1,
    }
}

/// Accepts only the block directly above `last_height`.
pub fn check_next_height(last_height: i32, height: i32) -> (r: Result<(), ScanError>)
    requires
        last_height < i32::MAX,
    ensures
        r.is_ok() == (height == last_height + 1),
        r.is_err() ==> r == Err::<(), ScanError>(ScanError::InvalidHeight((last_height + 1) as i32, height)),
{
    if height != last_height + 1 {
        Err(ScanError::InvalidHeight(last_height + 1, height))
    } else {
        Ok(())
    }
}

/// Stored witnesses of blocks below this height are pruned.
pub fn prune_height(last_height: i32) -> (r: i32)
    requires
        last_height >= i32::MIN + WITNESS_RETENTION,
    ensures
        r == last_height - WITNESS_RETENTION,
{
    last_height - WITNESS_RETENTION
}

/// Whether one of `spends` reveals the nullifier `nf`.
pub open spec fn spent_by(spends: Seq<WalletShieldedSpend>, nf: Seq<u8>) -> bool {
    exists|i: int| 0 <= i < spends.len() && #[trigger] spends[i].nf@ == nf
}

/// The tracked nullifiers that none of `spends` reveals, in order.
pub open spec fn unspent(
    nullifiers: Seq<(Vec<u8>, usize)>,
    spends: Seq<WalletShieldedSpend>,
) -> Seq<(Vec<u8>, usize)>
    decreases nullifiers.len(),
{
    if nullifiers.len() == 0 {
        seq![]
    } else {
        let prev = unspent(nullifiers.drop_last(), spends);
        if spent_by(spends, nullifiers.last().0@) {
            prev
        } else {
            prev.push(nullifiers.last())
        }
    }
}

fn is_spent(spends: &Vec<WalletShieldedSpend>, nf: &Vec<u8>) -> (r: bool)
    ensures
        r == spent_by(spends@, nf@),
{
    let mut i: usize = 0;
    while i < spends.len()
        invariant
            0 <= i <= spends@.len(),
            forall|k: int| 0 <= k < i ==> (#[trigger] spends@[k]).nf@ != nf@,
        decreases spends@.len() - i,
    {
        if bytes_eq(&spends[i].nf, nf) {
            return true;
        }
        i = i + 1;
    }
    false
}

/// What the scanner carries from one block to the next: the last scanned
/// height, the tree at that height, the witnesses of unspent notes (each with
/// its note id) and the tracked nullifiers with their accounts.
pub struct ScanState {
    pub last_height: i32,
    pub tree: Tree,
    pub witness_notes: Vec<i64>,
    pub witnesses: Vec<Witness>,
    pub nullifiers: Vec<(Vec<u8>, usize)>,
}

impl ScanState {
    /// Each witness is paired with its note id.
    pub open spec fn wf(&self) -> bool {
        &&& self.witness_notes@.len() == self.witnesses@.len()
        &&& frontier_wf(tree_frontier(self.tree))
        &&& witnesses_wf(self.witnesses@)
    }

    /// Whether every witness has observed exactly the leaves of the tree.
    pub open spec fn synced(&self) -> bool {
        forall|i: int|
            0 <= i < self.witnesses@.len() ==> #[trigger] witness_leaves(self.witnesses@[i])
                == tree_leaves(self.tree)
    }

    /// The state loaded at `last_height`.
    pub fn new(
        last_height: i32,
        tree: Tree,
        witness_rows: Vec<(i64, Witness)>,
        nullifiers: Vec<(Vec<u8>, usize)>,
    ) -> (r: Option<ScanState>)
        ensures
            r.is_some() == (frontier_wf(tree_frontier(tree)) && forall|i: int|
                0 <= i < witness_rows@.len() ==> witness_wf(witness_frontier(#[trigger] witness_rows@[i].1))),
            r matches Some(st) ==> {
                &&& st.wf()
                &&& st.last_height == last_height
                &&& st.tree == tree
                &&& st.nullifiers == nullifiers
                &&& st.witnesses@.len() == witness_rows@.len()
                &&& forall|i: int|
                    0 <= i < witness_rows@.len() ==> st.witness_notes@[i] == (#[trigger] witness_rows@[i]).0
                        && st.witnesses@[i] == witness_rows@[i].1
            },
    {
        let tree_ok = tree_is_wf(&tree);
        let mut witness_notes: Vec<i64> = Vec::new();
        let mut witnesses: Vec<Witness> = Vec::new();
        let mut rows = witness_rows;
        let ghost all = rows@;
        while rows.len() > 0
            invariant
                witness_notes@.len() == witnesses@.len(),
                witnesses@.len() + rows@.len() == all.len(),
                rows@ == all.subrange(witnesses@.len() as int, all.len() as int),
                forall|i: int|
                    0 <= i < witnesses@.len() ==> witness_notes@[i] == (#[trigger] all[i]).0
                        && witnesses@[i] == all[i].1,
                witnesses_wf(witnesses@),
                all == witness_rows@,
            decreases rows@.len(),
        {
            assert(rows@[0] == all[witnesses@.len() as int]);
            let (id, w) = rows.remove(0);
            if !witness_is_wf(&w) {
                assert(!witness_wf(witness_frontier(witness_rows@[witnesses@.len() as int].1)));
                return None;
            }
            let ghost wb = witnesses@;
            witness_notes.push(id);
            witnesses.push(w);
            assert forall|k: int| 0 <= k < witnesses@.len() implies witness_wf(witness_frontier(#[trigger] witnesses@[k])) by {
                if k < wb.len() {
                    assert(witnesses@[k] == wb[k]);
                }
            }
        }
        if !tree_ok {
            return None;
        }
        assert forall|i: int| 0 <= i < witness_rows@.len() implies witness_wf(witness_frontier(#[trigger] witness_rows@[i].1)) by {
            assert(witnesses@[i] == all[i].1);
        }
        Some(ScanState { last_height, tree, witness_notes, witnesses, nullifiers })
    }

    /// Scans the cached block at `height` as the next block.
    ///
    /// The block must lie directly above the last scanned height, and every
    /// stored witness must not have observed more leaves than the tree. The
    /// tree and witnesses then advance by the block's leaves, and afterwards
    /// every witness, stored or new, must share the tree's root.
    #[verifier::loop_isolation(false)]
    pub fn scan_next(
        &mut self,
        height: i32,
        block: CompactBlock,
        keys: &Vec<Vec<u8>>,
        zip212: Zip212,
    ) -> (r: Result<Vec<(WalletTx, Vec<Witness>)>, ScanError>)
        requires
            old(self).wf(),
            old(self).last_height < i32::MAX,
            tree_leaves(old(self).tree).len() + block_output_count(block) <= tree_capacity(),
        ensures
            final(self).wf(),
            final(self).nullifiers == old(self).nullifiers,
            final(self).witness_notes == old(self).witness_notes,
            height != old(self).last_height + 1 ==> r == Err::<
                Vec<(WalletTx, Vec<Witness>)>,
                ScanError,
            >(ScanError::InvalidHeight((old(self).last_height + 1) as i32, height))
                && *final(self) == *old(self),
            r matches Ok(txs) ==> {
                &&& height == old(self).last_height + 1
                &&& final(self).last_height == height
                &&& tree_leaves(final(self).tree) == tree_leaves(old(self).tree) + block_leaves(block)
                &&& final(self).witnesses@.len() == old(self).witnesses@.len()
                &&& forall|i: int|
                    0 <= i < final(self).witnesses@.len() ==> #[trigger] witness_leaves(
                        final(self).witnesses@[i],
                    ) == witness_leaves(old(self).witnesses@[i]) + block_leaves(block)
                &&& block_scanned(
                    block,
                    old(self).nullifiers@,
                    keys@,
                    zip212,
                    tree_leaves(old(self).tree).len(),
                    tree_leaves(final(self).tree),
                    txs@,
                )
                &&& forall|i: int|
                    0 <= i < final(self).witnesses@.len() ==> merkle_root(
                        #[trigger] witness_leaves(final(self).witnesses@[i]),
                    ) == merkle_root(tree_leaves(final(self).tree))
                &&& forall|k: int, j: int|
                    0 <= k < txs@.len() && 0 <= j < txs@[k].1@.len() ==> merkle_root(
                        #[trigger] witness_leaves(txs@[k].1@[j]),
                    ) == merkle_root(tree_leaves(final(self).tree))
            },
            r matches Err(e) ==> (e is InvalidHeight || e is InvalidWitnessAnchor
                || e is InvalidNewWitnessAnchor),
            height == old(self).last_height + 1 && old(self).synced() ==> r.is_ok()
                && final(self).synced(),
    {
        match check_next_height(self.last_height, height) {
            Err(e) => return Err(e),
            Ok(()) => {},
        }
        let size = tree_size(&self.tree);
        let mut i: usize = 0;
        while i < self.witnesses.len()
            invariant
                0 <= i <= self.witnesses@.len(),
                forall|k: int|
                    0 <= k < i ==> #[trigger] witness_leaves(self.witnesses@[k]).len() <= size,
            decreases self.witnesses@.len() - i,
        {
            let tip = witness_tip(&self.witnesses[i]);
            if tip >= size as u64 {
                return Err(ScanError::InvalidWitnessAnchor(self.witness_notes[i], height));
            }
            i = i + 1;
        }
        self.last_height = height;
        let txs = scan_block_with_keys(block, keys, &self.nullifiers, zip212, &mut self.tree, &mut self.witnesses);

        // Every witness must now share the tree's root.
        let root = tree_root(&self.tree);
        let mut i: usize = 0;
        while i < self.witnesses.len()
            invariant
                0 <= i <= self.witnesses@.len(),
                forall|m: int|
                    0 <= m < i ==> merkle_root(#[trigger] witness_leaves(self.witnesses@[m])) == root@,
            decreases self.witnesses@.len() - i,
        {
            if !bytes_eq(&witness_root(&self.witnesses[i]), &root) {
                return Err(ScanError::InvalidWitnessAnchor(self.witness_notes[i], height));
            }
            i = i + 1;
        }
        let mut k: usize = 0;
        while k < txs.len()
            invariant
                0 <= k <= txs@.len(),
                forall|m: int, n: int|
                    0 <= m < k && 0 <= n < txs@[m].1@.len() ==> merkle_root(
                        #[trigger] witness_leaves(txs@[m].1@[n]),
                    ) == root@,
            decreases txs@.len() - k,
        {
            let mut j: usize = 0;
            while j < txs[k].1.len()
                invariant
                    0 <= k < txs@.len(),
                    0 <= j <= txs@[k as int].1@.len(),
                    forall|m: int, n: int|
                        0 <= m < k && 0 <= n < txs@[m].1@.len() ==> merkle_root(
                            #[trigger] witness_leaves(txs@[m].1@[n]),
                        ) == root@,
                    forall|n: int|
                        0 <= n < j ==> merkle_root(#[trigger] witness_leaves(txs@[k as int].1@[n])) == root@,
                decreases txs@[k as int].1@.len() - j,
            {
                let w_root = witness_root(&txs[k].1[j]);
                if !bytes_eq(&w_root, &root) {
                    let index = if j < txs[k].0.shielded_outputs.len() {
                        txs[k].0.shielded_outputs[j].index
                    } else {
                        0
                    };
                    return Err(
                        ScanError::InvalidNewWitnessAnchor(index, copy_bytes(&txs[k].0.txid), height, w_root),
                    );
                }
                j = j + 1;
            }
            k = k + 1;
        }
        Ok(txs)
    }

    /// Stops tracking the nullifiers that `spends` reveal.
    pub fn record_spends(&mut self, spends: &Vec<WalletShieldedSpend>)
        requires
            old(self).wf(),
        ensures
            final(self).wf(),
            final(self).nullifiers@ == unspent(old(self).nullifiers@, spends@),
            final(self).last_height == old(self).last_height,
            final(self).tree == old(self).tree,
            final(self).witness_notes == old(self).witness_notes,
            final(self).witnesses == old(self).witnesses,
    {
        let mut kept: Vec<(Vec<u8>, usize)> = Vec::new();
        let mut rest: Vec<(Vec<u8>, usize)> = Vec::new();
        std::mem::swap(&mut rest, &mut self.nullifiers);
        let ghost all = rest@;
        let n = rest.len();
        let mut i: usize = 0;
        while rest.len() > 0
            invariant
                all.len() == n,
                i + rest@.len() == all.len(),
                rest@ == all.subrange(i as int, all.len() as int),
                kept@ == unspent(all.take(i as int), spends@),
            decreases rest@.len(),
        {
            let entry = rest.remove(0);
            assert(all.take(i + 1).drop_last() =~= all.take(i as int));
            assert(all.take(i + 1).last() == entry);
            if !is_spent(spends, &entry.0) {
                kept.push(entry);
            }
            i = i + 1;
        }
        assert(all.take(all.len() as int) =~= all);
        self.nullifiers = kept;
    }

    /// The nullifier of a received output, derived from its account's viewing
    /// key and the position its witness authenticates.
    pub fn output_nullifier(
        output: &WalletShieldedOutput,
        witness: &Witness,
        extfvks: &Vec<ExtendedFullViewingKey>,
    ) -> (r: Vec<u8>)
        requires
            output.account < extfvks@.len(),
            witness_wf(witness_frontier(*witness)),
        ensures
            r@.len() == 32,
    {
        let position = witness_pos(witness);
        note_nullifier(&output.note, &extfvks[output.account], position)
    }

    /// Starts tracking a received note: its witness under `id_note`, and its
    /// nullifier, so that a later spend of it is detected.
    pub fn track_note(&mut self, id_note: i64, witness: Witness, nf: Vec<u8>, account: usize)
        requires
            old(self).wf(),
            witness_wf(witness_frontier(witness)),
        ensures
            final(self).wf(),
            final(self).last_height == old(self).last_height,
            final(self).tree == old(self).tree,
            final(self).witness_notes@ == old(self).witness_notes@.push(id_note),
            final(self).witnesses@ == old(self).witnesses@.push(witness),
            final(self).nullifiers@ == old(self).nullifiers@.push((nf, account)),
    {
        let ghost wb = self.witnesses@;
        self.witness_notes.push(id_note);
        self.witnesses.push(witness);
        assert forall|k: int| 0 <= k < self.witnesses@.len() implies witness_wf(witness_frontier(#[trigger] self.witnesses@[k])) by {
            if k < wb.len() {
                assert(self.witnesses@[k] == wb[k]);
            }
        }
        self.nullifiers.push((nf, account));
    }

    /// Records a reported transaction once its received notes are stored:
    /// stops tracking the nullifiers it spends, then tracks each received note
    /// under its id, with its witness and nullifier.
    pub fn record_tx(
        &mut self,
        tx: &WalletTx,
        witnesses: Vec<Witness>,
        note_ids: &Vec<i64>,
        nfs: Vec<Vec<u8>>,
    )
        requires
            old(self).wf(),
            witnesses@.len() == tx.shielded_outputs@.len(),
            witnesses_wf(witnesses@),
            note_ids@.len() == tx.shielded_outputs@.len(),
            nfs@.len() == tx.shielded_outputs@.len(),
        ensures
            final(self).wf(),
            final(self).last_height == old(self).last_height,
            final(self).tree == old(self).tree,
            final(self).witness_notes@ == old(self).witness_notes@ + note_ids@,
            final(self).witnesses@ == old(self).witnesses@ + witnesses@,
            final(self).nullifiers@.len() == unspent(old(self).nullifiers@, tx.shielded_spends@).len()
                + nfs@.len(),
            forall|i: int|
                0 <= i < unspent(old(self).nullifiers@, tx.shielded_spends@).len() ==> #[trigger] final(self).nullifiers@[i] == unspent(old(self).nullifiers@, tx.shielded_spends@)[i],
            forall|q: int|
                0 <= q < nfs@.len() ==> #[trigger] final(self).nullifiers@[unspent(
                    old(self).nullifiers@,
                    tx.shielded_spends@,
                ).len() + q] == (nfs@[q], tx.shielded_outputs@[q].account),
    {
        self.record_spends(&tx.shielded_spends);
        let ghost kept = self.nullifiers@;
        let ghost w0 = self.witnesses@;
        let ghost n0 = self.witness_notes@;
        let mut ws = witnesses;
        let mut rest = nfs;
        let ghost all_ws = ws@;
        let ghost all_nfs = rest@;
        let n = tx.shielded_outputs.len();
        let mut q: usize = 0;
        while q < n
            invariant
                n == tx.shielded_outputs@.len(),
                note_ids@.len() == n,
                all_ws.len() == n,
                all_nfs.len() == n,
                0 <= q <= n,
                ws@ == all_ws.subrange(q as int, n as int),
                witnesses_wf(all_ws),
                rest@ == all_nfs.subrange(q as int, n as int),
                self.wf(),
                self.last_height == old(self).last_height,
                self.tree == old(self).tree,
                self.witness_notes@ == n0 + note_ids@.take(q as int),
                self.witnesses@ == w0 + all_ws.take(q as int),
                self.nullifiers@.len() == kept.len() + q,
                forall|i: int| 0 <= i < kept.len() ==> #[trigger] self.nullifiers@[i] == kept[i],
                forall|k: int|
                    0 <= k < q ==> #[trigger] self.nullifiers@[kept.len() + k] == (
                        all_nfs[k],
                        tx.shielded_outputs@[k].account,
                    ),
            decreases n - q,
        {
            assert(ws@[0] == all_ws[q as int]);
            let w = ws.remove(0);
            let nf = rest.remove(0);
            self.track_note(note_ids[q], w, nf, tx.shielded_outputs[q].account);
            assert(note_ids@.take(q + 1) =~= note_ids@.take(q as int).push(note_ids@[q as int]));
            assert(all_ws.take(q + 1) =~= all_ws.take(q as int).push(all_ws[q as int]));
            q = q + 1;
        }
        assert(note_ids@.take(n as int) =~= note_ids@);
        assert(all_ws.take(n as int) =~= all_ws);
        assert(n0 + note_ids@ =~= self.witness_notes@);
        assert(w0 + all_ws =~= self.witnesses@);
    }
}

} // verus!
