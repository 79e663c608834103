//! Scanning of one compact block: spend detection, trial decryption, and the
//! lock-step advance of the commitment tree and every witness.
use vstd::prelude::*;

use sapling_crypto::zip32::ExtendedFullViewingKey;

use crate::compact::{
    all_cmus_canonical, block_leaves, block_output_count, lemma_count_prefix,
    lemma_tx_leaves_len, output_leaves, tx_leaves, tx_output_count, CompactBlock, CompactOutput,
    CompactSpend, CompactTx,
};
use crate::sapling::{
    cmu_canonical, cmu_is_canonical, compact_decrypts, epk_is_valid, epk_valid, merkle_root,
    tree_append, tree_capacity, tree_leaves, try_compact_decrypt, viewing_key_bytes, Zip212,
    witness_append, witness_from_tree, witness_leaves, witness_position, Tree, Witness,
    frontier_wf, tree_frontier, witness_frontier, witness_wf, witnesses_wf,
};
use crate::wallet::{WalletShieldedOutput, WalletShieldedSpend, WalletTx};

verus! {

/// The account of the first tracked nullifier equal to `nf`, if any.
pub open spec fn tracked_account(nullifiers: Seq<(Vec<u8>, usize)>, nf: Seq<u8>) -> Option<usize>
    decreases nullifiers.len(),
{
    if nullifiers.len() == 0 {
        None
    } else if nullifiers[0].0@ == nf {
        Some(nullifiers[0].1)
    } else {
        tracked_account(nullifiers.drop_first(), nf)
    }
}

/// A detected spend as `(index, nullifier, account)`.
pub open spec fn spend_view(s: WalletShieldedSpend) -> (nat, Seq<u8>, usize) {
    (s.index as nat, s.nf@, s.account)
}

/// The spends among `spends` whose nullifier is tracked, in order, each with
/// its index and the account of the matching nullifier.
pub open spec fn detected_spends(
    spends: Seq<CompactSpend>,
    nullifiers: Seq<(Vec<u8>, usize)>,
) -> Seq<(nat, Seq<u8>, usize)>
    decreases spends.len(),
{
    if spends.len() == 0 {
        seq![]
    } else {
        let prev = detected_spends(spends.drop_last(), nullifiers);
        match tracked_account(nullifiers, spends.last().nf@) {
            Some(a) => prev.push(((spends.len() - 1) as nat, spends.last().nf@, a)),
            None => prev,
        }
    }
}

/// Whether one of `spends` is from `account`.
pub open spec fn spends_account(spends: Seq<WalletShieldedSpend>, account: usize) -> bool {
    exists|i: int| 0 <= i < spends.len() && #[trigger] spends[i].account == account
}

/// The tree position at which the output `o` of transaction `t` is appended,
/// for a tree that held `start` leaves before the block.
pub open spec fn leaf_position(start: nat, vtx: Seq<CompactTx>, t: int, o: int) -> nat {
    start + tx_leaves(vtx.take(t)).len() + output_leaves(vtx[t].outputs@.take(o)).len()
}

/// Whether `output` decrypts under the incoming viewing key `keys[a]`: its
/// commitment is canonical, its ephemeral key a prime-order point, and the
/// compact ciphertext decrypts to a note committing to it.
pub open spec fn decrypts_under(keys: Seq<Vec<u8>>, output: CompactOutput, zip212: Zip212, a: int) -> bool {
    &&& 0 <= a < keys.len()
    &&& keys[a]@.len() == 32
    &&& output.cmu@.len() == 32
    &&& output.epk@.len() == 32
    &&& output.ciphertext@.len() == 52
    &&& cmu_canonical(output.cmu@)
    &&& epk_valid(output.epk@)
    &&& compact_decrypts(keys[a]@, output.epk@, output.cmu@, output.ciphertext@, zip212)
}

/// Whether some key decrypts `output`.
pub open spec fn output_relevant(keys: Seq<Vec<u8>>, output: CompactOutput, zip212: Zip212) -> bool {
    exists|a: int| decrypts_under(keys, output, zip212, a)
}

/// Whether `a` is the lowest account whose key decrypts `output`.
pub open spec fn first_decrypting(keys: Seq<Vec<u8>>, output: CompactOutput, zip212: Zip212, a: int) -> bool {
    &&& decrypts_under(keys, output, zip212, a)
    &&& forall|b: int| 0 <= b < a ==> !#[trigger] decrypts_under(keys, output, zip212, b)
}

/// What a reported output states about the compact output it came from.
pub open spec fn output_matches(
    out: WalletShieldedOutput,
    tx: CompactTx,
    spends: Seq<WalletShieldedSpend>,
    keys: Seq<Vec<u8>>,
    zip212: Zip212,
) -> bool {
    &&& out.index < tx.outputs@.len()
    &&& out.cmu@ == tx.outputs@[out.index as int].cmu@
    &&& out.epk@ == tx.outputs@[out.index as int].epk@
    &&& first_decrypting(keys, tx.outputs@[out.index as int], zip212, out.account as int)
    &&& out.is_change == spends_account(spends, out.account)
}

/// Whether the reports hold transaction `t` with its output `o`.
pub open spec fn reports_output(r: Seq<(WalletTx, Vec<Witness>)>, t: int, o: int) -> bool {
    exists|k: int, j: int|
        0 <= k < r.len() && 0 <= j < r[k].0.shielded_outputs@.len() && r[k].0.index == t
            && #[trigger] r[k].0.shielded_outputs@[j].index == o
}

/// What the reports of a scanned block state: each matches its transaction,
/// carries witnesses following the tree up to `leaves`, and comes in block
/// order; every transaction with a tracked spend, and every output that a key
/// decrypts, is reported.
pub open spec fn block_scanned(
    block: CompactBlock,
    nullifiers: Seq<(Vec<u8>, usize)>,
    keys: Seq<Vec<u8>>,
    zip212: Zip212,
    start: nat,
    leaves: Seq<Seq<u8>>,
    r: Seq<(WalletTx, Vec<Witness>)>,
) -> bool {
    &&& forall|k: int|
        0 <= k < r.len() ==> wallet_tx_matches((#[trigger] r[k]).0, block.vtx@, nullifiers, keys, zip212)
    &&& forall|k: int| 0 <= k < r.len() ==> witnesses_match((#[trigger] r[k]).0, r[k].1@, block.vtx@, start, leaves)
    &&& forall|k1: int, k2: int| 0 <= k1 < k2 < r.len() ==> r[k1].0.index < r[k2].0.index
    &&& forall|t: int|
        0 <= t < block.vtx@.len() && detected_spends((#[trigger] block.vtx@[t]).spends@, nullifiers).len() > 0
            ==> reports_tx(r, t)
    &&& forall|t: int, o: int|
        0 <= t < block.vtx@.len() && 0 <= o < block.vtx@[t].outputs@.len() && output_relevant(
            keys,
            #[trigger] block.vtx@[t].outputs@[o],
            zip212,
        ) ==> reports_output(r, t, o)
}

/// Whether every witness of the reports is well formed.
pub open spec fn reports_wf(r: Seq<(WalletTx, Vec<Witness>)>) -> bool {
    forall|k: int| 0 <= k < r.len() ==> witnesses_wf(#[trigger] r[k].1@)
}

/// Whether the reports hold transaction `t`.
pub open spec fn reports_tx(r: Seq<(WalletTx, Vec<Witness>)>, t: int) -> bool {
    exists|k: int| 0 <= k < r.len() && #[trigger] r[k].0.index == t
}

/// What a reported transaction states about the compact transaction it came from.
pub open spec fn wallet_tx_matches(
    wtx: WalletTx,
    vtx: Seq<CompactTx>,
    nullifiers: Seq<(Vec<u8>, usize)>,
    keys: Seq<Vec<u8>>,
    zip212: Zip212,
) -> bool {
    let tx = vtx[wtx.index as int];
    let outs = wtx.shielded_outputs@;
    &&& wtx.index < vtx.len()
    &&& wtx.txid@ == tx.hash@
    &&& wtx.num_spends == tx.spends@.len()
    &&& wtx.num_outputs == tx.outputs@.len()
    &&& wtx.shielded_spends@.map_values(|s: WalletShieldedSpend| spend_view(s))
        == detected_spends(tx.spends@, nullifiers)
    &&& (wtx.shielded_spends@.len() > 0 || outs.len() > 0)
    &&& forall|j: int|
        0 <= j < outs.len() ==> output_matches(
            #[trigger] outs[j],
            tx,
            wtx.shielded_spends@,
            keys,
            zip212,
        )
    &&& forall|j: int, k: int| 0 <= j < k < outs.len() ==> outs[j].index < outs[k].index
}

/// What the new witnesses of a reported transaction state: one per output, each
/// at that output's position and following the tree up to `leaves`.
pub open spec fn witnesses_match(
    wtx: WalletTx,
    ws: Seq<Witness>,
    vtx: Seq<CompactTx>,
    start: nat,
    leaves: Seq<Seq<u8>>,
) -> bool {
    &&& ws.len() == wtx.shielded_outputs@.len()
    &&& forall|j: int| 0 <= j < ws.len() ==> #[trigger] witness_leaves(ws[j]) == leaves
    &&& forall|j: int|
        0 <= j < ws.len() ==> #[trigger] witness_position(ws[j]) == leaf_position(
            start,
            vtx,
            wtx.index as int,
            wtx.shielded_outputs@[j].index as int,
        )
}

pub(crate) fn bytes_eq(a: &Vec<u8>, b: &Vec<u8>) -> (r: bool)
    ensures
        r == (a@ == b@),
{
    if a.len() != b.len() {
        return false;
    }
    let mut i: usize = 0;
    while i < a.len()
        invariant
            a@.len() == b@.len(),
            0 <= i <= a@.len(),
            forall|k: int| 0 <= k < i ==> a@[k] == b@[k],
        decreases a@.len() - i,
    {
        if a[i] != b[i] {
            return false;
        }
        i = i + 1;
    }
    assert(a@ =~= b@);
    true
}

pub(crate) fn copy_bytes(a: &Vec<u8>) -> (r: Vec<u8>)
    ensures
        r@ == a@,
{
    let mut r: Vec<u8> = Vec::new();
    let mut i: usize = 0;
    while i < a.len()
        invariant
            0 <= i <= a@.len(),
            r@ == a@.take(i as int),
        decreases a@.len() - i,
    {
        r.push(a[i]);
        i = i + 1;
        assert(r@ =~= a@.take(i as int));
    }
    assert(a@.take(a@.len() as int) =~= a@);
    r
}

/// The account of the first tracked nullifier equal to `nf`.
pub fn find_account(nullifiers: &Vec<(Vec<u8>, usize)>, nf: &Vec<u8>) -> (r: Option<usize>)
    ensures
        r == tracked_account(nullifiers@, nf@),
{
    let mut i: usize = 0;
    assert(nullifiers@.subrange(0, nullifiers@.len() as int) =~= nullifiers@);
    while i < nullifiers.len()
        invariant
            0 <= i <= nullifiers@.len(),
            tracked_account(nullifiers@, nf@) == tracked_account(
                nullifiers@.subrange(i as int, nullifiers@.len() as int),
                nf@,
            ),
        decreases nullifiers@.len() - i,
    {
        let ghost rest = nullifiers@.subrange(i as int, nullifiers@.len() as int);
        if bytes_eq(&nullifiers[i].0, nf) {
            return Some(nullifiers[i].1);
        }
        assert(rest.drop_first() =~= nullifiers@.subrange(i + 1, nullifiers@.len() as int));
        i = i + 1;
    }
    None
}

/// The spends of a transaction whose nullifiers are tracked, with the account
/// each one spends from.
pub fn find_spends(spends: &Vec<CompactSpend>, nullifiers: &Vec<(Vec<u8>, usize)>) -> (r: Vec<
    WalletShieldedSpend,
>)
    ensures
        r@.map_values(|s: WalletShieldedSpend| spend_view(s)) == detected_spends(
            spends@,
            nullifiers@,
        ),
{
    let mut r: Vec<WalletShieldedSpend> = Vec::new();
    let mut i: usize = 0;
    while i < spends.len()
        invariant
            0 <= i <= spends@.len(),
            r@.map_values(|s: WalletShieldedSpend| spend_view(s)) == detected_spends(
                spends@.take(i as int),
                nullifiers@,
            ),
        decreases spends@.len() - i,
    {
        let ghost prev = r@;
        assert(spends@.take(i + 1).drop_last() =~= spends@.take(i as int));
        match find_account(nullifiers, &spends[i].nf) {
            Some(account) => {
                let s = WalletShieldedSpend { index: i, nf: copy_bytes(&spends[i].nf), account };
                r.push(s);
                assert(r@.map_values(|s: WalletShieldedSpend| spend_view(s)) =~= prev.map_values(
                    |s: WalletShieldedSpend| spend_view(s),
                ).push(spend_view(s)));
            },
            None => {},
        }
        i = i + 1;
    }
    assert(spends@.take(spends@.len() as int) =~= spends@);
    r
}

/// The accounts that the given spends are from.
fn spent_accounts(spends: &Vec<WalletShieldedSpend>) -> (r: Vec<usize>)
    ensures
        forall|a: usize| r@.contains(a) == spends_account(spends@, a),
{
    let mut r: Vec<usize> = Vec::new();
    let mut i: usize = 0;
    while i < spends.len()
        invariant
            0 <= i <= spends@.len(),
            r@.len() == i,
            forall|k: int| 0 <= k < i ==> r@[k] == #[trigger] spends@[k].account,
        decreases spends@.len() - i,
    {
        r.push(spends[i].account);
        i = i + 1;
    }
    assert forall|a: usize| r@.contains(a) == spends_account(spends@, a) by {
        if r@.contains(a) {
            let m = choose|m: int| 0 <= m < r@.len() && r@[m] == a;
            assert(spends@[m].account == a);
        }
        if spends_account(spends@, a) {
            let k = choose|k: int| 0 <= k < spends@.len() && #[trigger] spends@[k].account == a;
            assert(r@[k] == a);
        }
    }
    r
}

fn contains_account(accounts: &Vec<usize>, a: usize) -> (r: bool)
    ensures
        r == accounts@.contains(a),
{
    let mut i: usize = 0;
    while i < accounts.len()
        invariant
            0 <= i <= accounts@.len(),
            forall|k: int| 0 <= k < i ==> accounts@[k] != a,
        decreases accounts@.len() - i,
    {
        if accounts[i] == a {
            return true;
        }
        i = i + 1;
    }
    false
}

/// Appends `leaf` to every witness of `ws`.
fn append_to_all(ws: &mut Vec<Witness>, leaf: &Vec<u8>)
    requires
        cmu_canonical(leaf@),
        witnesses_wf(old(ws)@),
        forall|i: int|
            0 <= i < old(ws)@.len() ==> #[trigger] witness_leaves(old(ws)@[i]).len()
                < tree_capacity(),
    ensures
        witnesses_wf(final(ws)@),
        final(ws)@.len() == old(ws)@.len(),
        forall|i: int|
            0 <= i < final(ws)@.len() ==> #[trigger] witness_leaves(final(ws)@[i])
                == witness_leaves(old(ws)@[i]).push(leaf@),
        forall|i: int|
            0 <= i < final(ws)@.len() ==> #[trigger] witness_position(final(ws)@[i])
                == witness_position(old(ws)@[i]),
{
    let ghost start = ws@;
    let n = ws.len();
    let mut i: usize = 0;
    while i < n
        invariant
            n == start.len(),
            ws@.len() == n,
            0 <= i <= n,
            cmu_canonical(leaf@),
            witnesses_wf(start),
            witnesses_wf(ws@),
            forall|k: int| 0 <= k < start.len() ==> #[trigger] witness_leaves(start[k]).len()
                < tree_capacity(),
            forall|k: int|
                0 <= k < i ==> #[trigger] witness_leaves(ws@[k]) == witness_leaves(
                    start[k],
                ).push(leaf@),
            forall|k: int| 0 <= k < n ==> #[trigger] witness_position(ws@[k]) == witness_position(start[k]),
            forall|k: int| i <= k < n ==> ws@[k] == start[k],
        decreases n - i,
    {
        let ghost before = ws@;
        let mut w = ws.remove(i);
        assert(witness_leaves(start[i as int]).len() < tree_capacity());
        assert(witness_wf(witness_frontier(before[i as int])));
        let _ = witness_append(&mut w, leaf);
        ws.insert(i, w);
        assert forall|k: int| 0 <= k < ws@.len() implies witness_wf(witness_frontier(#[trigger] ws@[k])) by {
            if k != i {
                assert(ws@[k] == before[k]);
            }
        }
        i = i + 1;
    }
}

/// Appends `leaf` to every witness of every reported transaction.
fn append_to_reported(found: &mut Vec<(WalletTx, Vec<Witness>)>, leaf: &Vec<u8>)
    requires
        cmu_canonical(leaf@),
        reports_wf(old(found)@),
        forall|k: int, j: int|
            0 <= k < old(found)@.len() && 0 <= j < old(found)@[k].1@.len()
                ==> #[trigger] witness_leaves(old(found)@[k].1@[j]).len() < tree_capacity(),
    ensures
        reports_wf(final(found)@),
        final(found)@.len() == old(found)@.len(),
        forall|k: int| 0 <= k < final(found)@.len() ==> (#[trigger] final(found)@[k]).0 == old(found)@[k].0,
        forall|k: int|
            0 <= k < final(found)@.len() ==> (#[trigger] final(found)@[k]).1@.len() == old(found)@[k].1@.len(),
        forall|k: int, j: int|
            0 <= k < final(found)@.len() && 0 <= j < final(found)@[k].1@.len()
                ==> #[trigger] witness_leaves(final(found)@[k].1@[j]) == witness_leaves(
                old(found)@[k].1@[j],
            ).push(leaf@),
        forall|k: int, j: int|
            0 <= k < final(found)@.len() && 0 <= j < final(found)@[k].1@.len()
                ==> #[trigger] witness_position(final(found)@[k].1@[j]) == witness_position(
                old(found)@[k].1@[j],
            ),
{
    let ghost start = found@;
    let n = found.len();
    let mut i: usize = 0;
    while i < n
        invariant
            n == start.len(),
            found@.len() == n,
            0 <= i <= n,
            cmu_canonical(leaf@),
            reports_wf(start),
            reports_wf(found@),
            forall|k: int, j: int|
                0 <= k < start.len() && 0 <= j < start[k].1@.len()
                    ==> #[trigger] witness_leaves(start[k].1@[j]).len() < tree_capacity(),
            forall|k: int| 0 <= k < n ==> (#[trigger] found@[k]).0 == start[k].0,
            forall|k: int| 0 <= k < n ==> (#[trigger] found@[k]).1@.len() == start[k].1@.len(),
            forall|k: int, j: int|
                0 <= k < i && 0 <= j < found@[k].1@.len() ==> #[trigger] witness_leaves(
                    found@[k].1@[j],
                ) == witness_leaves(start[k].1@[j]).push(leaf@),
            forall|k: int, j: int|
                0 <= k < n && 0 <= j < found@[k].1@.len() ==> #[trigger] witness_position(
                    found@[k].1@[j],
                ) == witness_position(start[k].1@[j]),
            forall|k: int| i <= k < n ==> found@[k] == start[k],
        decreases n - i,
    {
        let ghost before = found@;
        let (wtx, mut ws) = found.remove(i);
        assert(ws@ == start[i as int].1@);
        assert(witnesses_wf(before[i as int].1@));
        append_to_all(&mut ws, leaf);
        found.insert(i, (wtx, ws));
        assert forall|k: int| 0 <= k < found@.len() implies witnesses_wf(#[trigger] found@[k].1@) by {
            if k != i {
                assert(found@[k] == before[k]);
            }
        }
        i = i + 1;
    }
}

} // verus!

verus! {

/// The leaves after `cmu` is offered to the tree: appended when canonical.
pub open spec fn append_leaf(leaves: Seq<Seq<u8>>, cmu: Seq<u8>) -> Seq<Seq<u8>> {
    if cmu_canonical(cmu) {
        leaves.push(cmu)
    } else {
        leaves
    }
}

/// Scans output `index` of a transaction against the prepared incoming viewing
/// keys, account by account.
///
/// A canonical commitment is first appended to every existing witness, every
/// witness created earlier in the block, and then the tree; the output is
/// reported only if its ephemeral key is a valid prime-order point and some
/// key decrypts it, together with a witness for its commitment.
#[verifier::loop_isolation(false)]
fn scan_output(
    index: usize,
    output: &CompactOutput,
    keys: &Vec<Vec<u8>>,
    spent_from_accounts: &Vec<usize>,
    zip212: Zip212,
    tree: &mut Tree,
    existing_witnesses: &mut Vec<Witness>,
    reported: &mut Vec<(WalletTx, Vec<Witness>)>,
    new_witnesses: &mut Vec<Witness>,
) -> (r: Option<(WalletShieldedOutput, Witness)>)
    requires
        frontier_wf(tree_frontier(*old(tree))),
        witnesses_wf(old(existing_witnesses)@),
        reports_wf(old(reported)@),
        witnesses_wf(old(new_witnesses)@),
        tree_leaves(*old(tree)).len() < tree_capacity(),
        forall|i: int|
            0 <= i < old(existing_witnesses)@.len() ==> #[trigger] witness_leaves(
                old(existing_witnesses)@[i],
            ).len() <= tree_leaves(*old(tree)).len(),
        forall|k: int, j: int|
            0 <= k < old(reported)@.len() && 0 <= j < old(reported)@[k].1@.len()
                ==> #[trigger] witness_leaves(old(reported)@[k].1@[j]).len() <= tree_leaves(
                *old(tree),
            ).len(),
        forall|j: int|
            0 <= j < old(new_witnesses)@.len() ==> #[trigger] witness_leaves(
                old(new_witnesses)@[j],
            ).len() <= tree_leaves(*old(tree)).len(),
    ensures
        frontier_wf(tree_frontier(*final(tree))),
        witnesses_wf(final(existing_witnesses)@),
        reports_wf(final(reported)@),
        witnesses_wf(final(new_witnesses)@),
        r matches Some((_, w)) ==> witness_wf(witness_frontier(w)),
        tree_leaves(*final(tree)) == append_leaf(tree_leaves(*old(tree)), output.cmu@),
        final(existing_witnesses)@.len() == old(existing_witnesses)@.len(),
        forall|i: int|
            0 <= i < final(existing_witnesses)@.len() ==> #[trigger] witness_leaves(
                final(existing_witnesses)@[i],
            ) == append_leaf(witness_leaves(old(existing_witnesses)@[i]), output.cmu@),
        forall|i: int|
            0 <= i < final(existing_witnesses)@.len() ==> #[trigger] witness_position(
                final(existing_witnesses)@[i],
            ) == witness_position(old(existing_witnesses)@[i]),
        final(reported)@.len() == old(reported)@.len(),
        forall|k: int|
            0 <= k < final(reported)@.len() ==> (#[trigger] final(reported)@[k]).0 == old(
                reported,
            )@[k].0 && final(reported)@[k].1@.len() == old(reported)@[k].1@.len(),
        forall|k: int, j: int|
            0 <= k < final(reported)@.len() && 0 <= j < final(reported)@[k].1@.len()
                ==> #[trigger] witness_leaves(final(reported)@[k].1@[j]) == append_leaf(
                witness_leaves(old(reported)@[k].1@[j]),
                output.cmu@,
            ),
        forall|k: int, j: int|
            0 <= k < final(reported)@.len() && 0 <= j < final(reported)@[k].1@.len()
                ==> #[trigger] witness_position(final(reported)@[k].1@[j]) == witness_position(
                old(reported)@[k].1@[j],
            ),
        final(new_witnesses)@.len() == old(new_witnesses)@.len(),
        forall|j: int|
            0 <= j < final(new_witnesses)@.len() ==> #[trigger] witness_leaves(
                final(new_witnesses)@[j],
            ) == append_leaf(witness_leaves(old(new_witnesses)@[j]), output.cmu@),
        forall|j: int|
            0 <= j < final(new_witnesses)@.len() ==> #[trigger] witness_position(
                final(new_witnesses)@[j],
            ) == witness_position(old(new_witnesses)@[j]),
        r matches Some((out, w)) ==> {
            &&& out.index == index
            &&& out.cmu@ == output.cmu@
            &&& out.epk@ == output.epk@
            &&& first_decrypting(keys@, *output, zip212, out.account as int)
            &&& out.is_change == spent_from_accounts@.contains(out.account)
            &&& witness_leaves(w) == tree_leaves(*final(tree))
            &&& witness_position(w) + 1 == tree_leaves(*final(tree)).len()
        },
        r.is_some() == output_relevant(keys@, *output, zip212),
{
    if output.cmu.len() != 32 {
        return None;
    }
    if !cmu_is_canonical(&output.cmu) {
        return None;
    }

    // Every observer of the tree takes the leaf before any decryption attempt.
    append_to_all(existing_witnesses, &output.cmu);
    append_to_reported(reported, &output.cmu);
    append_to_all(new_witnesses, &output.cmu);
    let _ = tree_append(tree, &output.cmu);

    if output.epk.len() != 32 || output.ciphertext.len() != 52 {
        return None;
    }
    if !epk_is_valid(&output.epk) {
        return None;
    }

    let mut account: usize = 0;
    while account < keys.len()
        invariant
            0 <= account <= keys@.len(),
            tree_leaves(*tree).len() > 0,
            frontier_wf(tree_frontier(*tree)),
            forall|b: int| 0 <= b < account ==> !#[trigger] decrypts_under(keys@, *output, zip212, b),
        decreases keys@.len() - account,
    {
        if keys[account].len() != 32 {
            account = account + 1;
            continue;
        }
        match try_compact_decrypt(&keys[account], &output.epk, &output.cmu, &output.ciphertext, zip212) {
            Some((note, to)) => {
                // An output is change when its account also spends in this transaction.
                let is_change = contains_account(spent_from_accounts, account);
                assert(decrypts_under(keys@, *output, zip212, account as int));
                return match witness_from_tree(tree) {
                    Some(w) => Some(
                        (
                            WalletShieldedOutput {
                                index,
                                cmu: copy_bytes(&output.cmu),
                                epk: copy_bytes(&output.epk),
                                account,
                                note,
                                to,
                                is_change,
                            },
                            w,
                        ),
                    ),
                    None => None,
                };
            },
            None => {},
        }
        account = account + 1;
    }
    None
}

} // verus!

verus! {

proof fn lemma_output_leaves_step(outs: Seq<CompactOutput>, o: int)
    requires
        0 <= o < outs.len(),
    ensures
        output_leaves(outs.take(o + 1)) == append_leaf(output_leaves(outs.take(o)), outs[o].cmu@),
{
    assert(outs.take(o + 1).drop_last() =~= outs.take(o));
}

proof fn lemma_tx_leaves_step(txs: Seq<CompactTx>, t: int)
    requires
        0 <= t < txs.len(),
    ensures
        tx_leaves(txs.take(t + 1)) == tx_leaves(txs.take(t)) + output_leaves(txs[t].outputs@),
        tx_output_count(txs.take(t + 1)) == tx_output_count(txs.take(t)) + txs[t].outputs@.len(),
{
    assert(txs.take(t + 1).drop_last() =~= txs.take(t));
}

proof fn lemma_detected_len(spends: Seq<CompactSpend>, nullifiers: Seq<(Vec<u8>, usize)>)
    ensures
        detected_spends(spends, nullifiers).len() <= spends.len(),
        forall|i: int|
            0 <= i < detected_spends(spends, nullifiers).len() ==> (#[trigger] detected_spends(
                spends,
                nullifiers,
            )[i]).0 < spends.len(),
    decreases spends.len(),
{
    if spends.len() > 0 {
        lemma_detected_len(spends.drop_last(), nullifiers);
    }
}

/// Scans a compact block for transactions relevant to the given viewing keys.
///
/// Every canonical output commitment of the block is appended, in block order,
/// to the tree, to every existing witness, and to every witness created
/// earlier in the block. A transaction is reported when it spends a tracked
/// nullifier or has an output that one of the keys decrypts; each reported
/// output comes with a witness at its tree position.
#[verifier::rlimit(50)]
pub fn scan_block_with_keys(
    block: CompactBlock,
    keys: &Vec<Vec<u8>>,
    nullifiers: &Vec<(Vec<u8>, usize)>,
    zip212: Zip212,
    tree: &mut Tree,
    existing_witnesses: &mut Vec<Witness>,
) -> (r: Vec<(WalletTx, Vec<Witness>)>)
    requires
        frontier_wf(tree_frontier(*old(tree))),
        witnesses_wf(old(existing_witnesses)@),
        tree_leaves(*old(tree)).len() + block_output_count(block) <= tree_capacity(),
        forall|i: int|
            0 <= i < old(existing_witnesses)@.len() ==> #[trigger] witness_leaves(
                old(existing_witnesses)@[i],
            ).len() <= tree_leaves(*old(tree)).len(),
    ensures
        frontier_wf(tree_frontier(*final(tree))),
        witnesses_wf(final(existing_witnesses)@),
        reports_wf(r@),
        tree_leaves(*final(tree)) == tree_leaves(*old(tree)) + block_leaves(block),
        final(existing_witnesses)@.len() == old(existing_witnesses)@.len(),
        forall|i: int|
            0 <= i < final(existing_witnesses)@.len() ==> #[trigger] witness_leaves(
                final(existing_witnesses)@[i],
            ) == witness_leaves(old(existing_witnesses)@[i]) + block_leaves(block),
        forall|i: int|
            0 <= i < final(existing_witnesses)@.len() ==> #[trigger] witness_position(
                final(existing_witnesses)@[i],
            ) == witness_position(old(existing_witnesses)@[i]),
        forall|k: int|
            0 <= k < r@.len() ==> wallet_tx_matches(
                (#[trigger] r@[k]).0,
                block.vtx@,
                nullifiers@,
                keys@,
                zip212,
            ),
        forall|k: int|
            0 <= k < r@.len() ==> witnesses_match(
                (#[trigger] r@[k]).0,
                r@[k].1@,
                block.vtx@,
                tree_leaves(*old(tree)).len(),
                tree_leaves(*final(tree)),
            ),
        forall|i: int|
            0 <= i < final(existing_witnesses)@.len() && witness_leaves(
                old(existing_witnesses)@[i],
            ) == tree_leaves(*old(tree)) ==> merkle_root(
                #[trigger] witness_leaves(final(existing_witnesses)@[i]),
            ) == merkle_root(tree_leaves(*final(tree))),
        forall|k: int, j: int|
            0 <= k < r@.len() && 0 <= j < r@[k].1@.len() ==> merkle_root(
                #[trigger] witness_leaves(r@[k].1@[j]),
            ) == merkle_root(tree_leaves(*final(tree))),
        forall|k1: int, k2: int| 0 <= k1 < k2 < r@.len() ==> r@[k1].0.index < r@[k2].0.index,
        forall|t: int|
            0 <= t < block.vtx@.len() && detected_spends(
                (#[trigger] block.vtx@[t]).spends@,
                nullifiers@,
            ).len() > 0 ==> exists|k: int| 0 <= k < r@.len() && r@[k].0.index == t,
        forall|t: int, o: int|
            0 <= t < block.vtx@.len() && 0 <= o < block.vtx@[t].outputs@.len() && output_relevant(
                keys@,
                #[trigger] block.vtx@[t].outputs@[o],
                zip212,
            ) ==> reports_output(r@, t, o),
        block_scanned(block, nullifiers@, keys@, zip212, tree_leaves(*old(tree)).len(), tree_leaves(*final(tree)), r@),
{
    let ghost vtx = block.vtx@;
    let ghost l0 = tree_leaves(*tree);
    let ghost ex0 = existing_witnesses@;

    let mut found: Vec<(WalletTx, Vec<Witness>)> = Vec::new();
    let mut t: usize = 0;
    while t < block.vtx.len()
        invariant
            vtx == block.vtx@,
            0 <= t <= vtx.len(),
            l0.len() + tx_output_count(vtx) <= tree_capacity(),
            frontier_wf(tree_frontier(*tree)),
            witnesses_wf(existing_witnesses@),
            reports_wf(found@),
            tree_leaves(*tree) == l0 + tx_leaves(vtx.take(t as int)),
            tx_leaves(vtx.take(t as int)).len() <= tx_output_count(vtx.take(t as int)),
            tx_output_count(vtx.take(t as int)) <= tx_output_count(vtx),
            existing_witnesses@.len() == ex0.len(),
            forall|i: int|
                0 <= i < ex0.len() ==> #[trigger] witness_leaves(existing_witnesses@[i])
                    == witness_leaves(ex0[i]) + tx_leaves(vtx.take(t as int)),
            forall|i: int| 0 <= i < ex0.len() ==> #[trigger] witness_leaves(ex0[i]).len() <= l0.len(),
            forall|i: int|
                0 <= i < ex0.len() ==> #[trigger] witness_position(existing_witnesses@[i])
                    == witness_position(ex0[i]),
            forall|k: int|
                0 <= k < found@.len() ==> wallet_tx_matches(
                    (#[trigger] found@[k]).0,
                    vtx,
                    nullifiers@,
                    keys@,
                zip212,
                ),
            forall|k: int|
                0 <= k < found@.len() ==> witnesses_match(
                    (#[trigger] found@[k]).0,
                    found@[k].1@,
                    vtx,
                    l0.len(),
                    tree_leaves(*tree),
                ),
            forall|k: int| 0 <= k < found@.len() ==> (#[trigger] found@[k]).0.index < t,
            forall|k1: int, k2: int|
                0 <= k1 < k2 < found@.len() ==> found@[k1].0.index < found@[k2].0.index,
            forall|u: int|
                0 <= u < t && detected_spends((#[trigger] vtx[u]).spends@, nullifiers@).len() > 0
                    ==> exists|k: int| 0 <= k < found@.len() && found@[k].0.index == u,
            forall|u: int, o: int|
                0 <= u < t && 0 <= o < vtx[u].outputs@.len() && output_relevant(
                    keys@,
                    #[trigger] vtx[u].outputs@[o],
                    zip212,
                ) ==> reports_output(found@, u, o),
        decreases vtx.len() - t,
    {
        let tx = &block.vtx[t];
        let ghost outs = tx.outputs@;
        let spends = find_spends(&tx.spends, nullifiers);
        let spent_from = spent_accounts(&spends);
        proof {
            lemma_tx_leaves_step(vtx, t as int);
            lemma_count_prefix(vtx, t as int + 1);
            lemma_tx_leaves_len(vtx.take(t as int));
        }
        let ghost base = l0 + tx_leaves(vtx.take(t as int));
        let ghost ex1 = existing_witnesses@;
        let ghost found1 = found@;

        let mut outputs: Vec<WalletShieldedOutput> = Vec::new();
        let mut new_witnesses: Vec<Witness> = Vec::new();
        let mut o: usize = 0;
        assert(outs.take(0) =~= Seq::<CompactOutput>::empty());
        while o < tx.outputs.len()
            invariant
                vtx == block.vtx@,
                *tx == vtx[t as int],
                outs == tx.outputs@,
                0 <= t < vtx.len(),
                0 <= o <= outs.len(),
                base == l0 + tx_leaves(vtx.take(t as int)),
                base.len() + outs.len() <= tree_capacity(),
                frontier_wf(tree_frontier(*tree)),
                witnesses_wf(existing_witnesses@),
                reports_wf(found@),
                witnesses_wf(new_witnesses@),
                forall|a: usize| spent_from@.contains(a) == spends_account(spends@, a),
                tree_leaves(*tree) == base + output_leaves(outs.take(o as int)),
                output_leaves(outs.take(o as int)).len() <= o,
                existing_witnesses@.len() == ex1.len(),
                forall|i: int|
                    0 <= i < ex1.len() ==> #[trigger] witness_leaves(existing_witnesses@[i])
                        == witness_leaves(ex1[i]) + output_leaves(outs.take(o as int)),
                forall|i: int| 0 <= i < ex1.len() ==> #[trigger] witness_leaves(ex1[i]).len() <= base.len(),
                forall|i: int|
                    0 <= i < ex1.len() ==> #[trigger] witness_position(existing_witnesses@[i])
                        == witness_position(ex1[i]),
                found@.len() == found1.len(),
                forall|k: int| 0 <= k < found@.len() ==> (#[trigger] found@[k]).0 == found1[k].0,
                forall|k: int|
                    0 <= k < found@.len() ==> witnesses_match(
                        (#[trigger] found@[k]).0,
                        found@[k].1@,
                        vtx,
                        l0.len(),
                        tree_leaves(*tree),
                    ),
                new_witnesses@.len() == outputs@.len(),
                forall|j: int|
                    0 <= j < new_witnesses@.len() ==> #[trigger] witness_leaves(new_witnesses@[j])
                        == tree_leaves(*tree),
                forall|j: int|
                    0 <= j < new_witnesses@.len() ==> #[trigger] witness_position(new_witnesses@[j])
                        == leaf_position(l0.len(), vtx, t as int, outputs@[j].index as int),
                forall|j: int|
                    0 <= j < outputs@.len() ==> output_matches(
                        #[trigger] outputs@[j],
                        vtx[t as int],
                        spends@,
                        keys@,
                zip212,
                    ),
                forall|j: int| 0 <= j < outputs@.len() ==> (#[trigger] outputs@[j]).index < o,
                forall|j: int, k: int|
                    0 <= j < k < outputs@.len() ==> outputs@[j].index < outputs@[k].index,
                forall|o2: int|
                    0 <= o2 < o && output_relevant(keys@, #[trigger] outs[o2], zip212) ==> exists|
                        j: int,
                    | 0 <= j < outputs@.len() && outputs@[j].index == o2,
            decreases outs.len() - o,
        {
            proof {
                lemma_output_leaves_step(outs, o as int);
            }
            let ghost tl = tree_leaves(*tree);
            let ghost ex2 = existing_witnesses@;
            let ghost found2 = found@;
            let ghost nw2 = new_witnesses@;
            let res = scan_output(
                o,
                &tx.outputs[o],
                keys,
                &spent_from,
                zip212,
                tree,
                existing_witnesses,
                &mut found,
                &mut new_witnesses,
            );
            let ghost leaf = outs[o as int].cmu@;
            assert(output_leaves(outs.take(o + 1)) == append_leaf(
                output_leaves(outs.take(o as int)),
                leaf,
            ));
            assert(tree_leaves(*tree) =~= base + output_leaves(outs.take(o + 1)));
            assert forall|i: int| 0 <= i < ex1.len() implies #[trigger] witness_leaves(
                existing_witnesses@[i],
            ) == witness_leaves(ex1[i]) + output_leaves(outs.take(o + 1)) by {
                assert(witness_leaves(existing_witnesses@[i]) =~= witness_leaves(ex1[i])
                    + output_leaves(outs.take(o + 1)));
            }
            assert forall|k: int| 0 <= k < found@.len() implies witnesses_match(
                (#[trigger] found@[k]).0,
                found@[k].1@,
                vtx,
                l0.len(),
                tree_leaves(*tree),
            ) by {
                assert(witnesses_match(found2[k].0, found2[k].1@, vtx, l0.len(), tl));
                assert forall|j: int| 0 <= j < found@[k].1@.len() implies #[trigger] witness_leaves(
                    found@[k].1@[j],
                ) == tree_leaves(*tree) by {
                    assert(witness_leaves(found2[k].1@[j]) == tl);
                }
                assert forall|j: int| 0 <= j < found@[k].1@.len() implies #[trigger] witness_position(
                    found@[k].1@[j],
                ) == leaf_position(
                    l0.len(),
                    vtx,
                    found@[k].0.index as int,
                    found@[k].0.shielded_outputs@[j].index as int,
                ) by {
                    assert(witness_position(found2[k].1@[j]) == leaf_position(
                        l0.len(),
                        vtx,
                        found2[k].0.index as int,
                        found2[k].0.shielded_outputs@[j].index as int,
                    ));
                }
            }
            assert forall|j: int| 0 <= j < nw2.len() implies #[trigger] witness_leaves(
                new_witnesses@[j],
            ) == tree_leaves(*tree) by {
                assert(witness_leaves(nw2[j]) == tl);
            }
            let ghost outputs_before = outputs@;
            match res {
                Some((out, w)) => {
                    assert(out.is_change == spends_account(spends@, out.account));
                    assert(witness_position(w) == leaf_position(l0.len(), vtx, t as int, o as int));
                    outputs.push(out);
                    let ghost nw3 = new_witnesses@;
                    new_witnesses.push(w);
                    assert forall|k: int| 0 <= k < new_witnesses@.len() implies witness_wf(
                        witness_frontier(#[trigger] new_witnesses@[k]),
                    ) by {
                        if k < nw3.len() {
                            assert(new_witnesses@[k] == nw3[k]);
                        }
                    }
                },
                None => {},
            }
            assert forall|o2: int|
                0 <= o2 < o + 1 && output_relevant(keys@, #[trigger] outs[o2], zip212) implies exists|
                    j: int,
                | 0 <= j < outputs@.len() && outputs@[j].index == o2 by {
                if o2 < o {
                    let j = choose|j: int| 0 <= j < outputs_before.len() && outputs_before[j].index == o2;
                    assert(outputs@[j] == outputs_before[j]);
                } else {
                    assert(outputs@[outputs@.len() - 1].index == o2);
                }
            }
            o = o + 1;
        }
        assert(outs.take(outs.len() as int) =~= outs);
        assert(tree_leaves(*tree) =~= l0 + tx_leaves(vtx.take(t + 1)));
        assert forall|i: int| 0 <= i < ex0.len() implies #[trigger] witness_leaves(
            existing_witnesses@[i],
        ) == witness_leaves(ex0[i]) + tx_leaves(vtx.take(t + 1)) by {
            assert(witness_leaves(existing_witnesses@[i]) =~= witness_leaves(ex0[i]) + tx_leaves(
                vtx.take(t + 1),
            ));
        }
        proof {
            lemma_detected_len(tx.spends@, nullifiers@);
        }
        let ghost outs_found = outputs@;
        if spends.len() > 0 || outputs.len() > 0 {
            let wtx = WalletTx {
                txid: copy_bytes(&tx.hash),
                index: t,
                num_spends: tx.spends.len(),
                num_outputs: tx.outputs.len(),
                shielded_spends: spends,
                shielded_outputs: outputs,
            };
            assert(wallet_tx_matches(wtx, vtx, nullifiers@, keys@, zip212));
            assert(witnesses_match(wtx, new_witnesses@, vtx, l0.len(), tree_leaves(*tree)));
            let ghost fb = found@;
            found.push((wtx, new_witnesses));
            assert forall|k: int| 0 <= k < found@.len() implies witnesses_wf(#[trigger] found@[k].1@) by {
                if k < fb.len() {
                    assert(found@[k] == fb[k]);
                }
            }
            assert(found@[found@.len() - 1].0 == wtx);
        }
        assert forall|u: int, o: int|
            0 <= u < t + 1 && 0 <= o < vtx[u].outputs@.len() && output_relevant(
                keys@,
                #[trigger] vtx[u].outputs@[o],
                zip212,
            ) implies reports_output(found@, u, o) by {
            if u < t {
                assert(reports_output(found1, u, o));
                let (k, j) = choose|k: int, j: int|
                    0 <= k < found1.len() && 0 <= j < found1[k].0.shielded_outputs@.len()
                        && found1[k].0.index == u && #[trigger] found1[k].0.shielded_outputs@[j].index
                        == o;
                assert(found@[k].0 == found1[k].0);
                assert(found@[k].0.shielded_outputs@[j].index == o);
            } else {
                assert(outs[o] == vtx[u].outputs@[o]);
                let j = choose|j: int| 0 <= j < outs_found.len() && #[trigger] outs_found[j].index == o;
                assert(found@[found@.len() - 1].0.shielded_outputs@ == outs_found);
                assert(found@[found@.len() - 1].0.shielded_outputs@[j].index == o);
            }
        }
        assert forall|u: int|
            0 <= u < t + 1 && detected_spends((#[trigger] vtx[u]).spends@, nullifiers@).len() > 0
            implies exists|k: int| 0 <= k < found@.len() && found@[k].0.index == u by {
            if u < t {
                let k = choose|k: int| 0 <= k < found1.len() && found1[k].0.index == u;
                assert(found@[k].0 == found1[k].0);
            } else {
                assert(found@[found@.len() - 1].0.index == t);
            }
        }
        t = t + 1;
    }
    assert(vtx.take(vtx.len() as int) =~= vtx);
    assert forall|k: int, j: int| 0 <= k < found@.len() && 0 <= j < found@[k].1@.len() implies
        merkle_root(#[trigger] witness_leaves(found@[k].1@[j])) == merkle_root(
        tree_leaves(*tree),
    ) by {
        assert(witnesses_match(found@[k].0, found@[k].1@, vtx, l0.len(), tree_leaves(*tree)));
    }
    found
}

/// The 32-byte incoming viewing keys of the given accounts, in order.
pub fn viewing_keys(extfvks: &Vec<ExtendedFullViewingKey>) -> (r: Vec<Vec<u8>>)
    ensures
        r@.len() == extfvks@.len(),
        forall|a: int| 0 <= a < r@.len() ==> (#[trigger] r@[a])@.len() == 32,
{
    let mut keys: Vec<Vec<u8>> = Vec::new();
    let mut a: usize = 0;
    while a < extfvks.len()
        invariant
            0 <= a <= extfvks@.len(),
            keys@.len() == a,
            forall|b: int| 0 <= b < keys@.len() ==> (#[trigger] keys@[b])@.len() == 32,
        decreases extfvks@.len() - a,
    {
        keys.push(viewing_key_bytes(&extfvks[a]));
        a = a + 1;
    }
    keys
}

/// Scans a compact block for transactions relevant to the given accounts,
/// trying each account's incoming viewing key in account order; see
/// [`scan_block_with_keys`].
pub fn scan_block(
    block: CompactBlock,
    extfvks: &Vec<ExtendedFullViewingKey>,
    nullifiers: &Vec<(Vec<u8>, usize)>,
    zip212: Zip212,
    tree: &mut Tree,
    existing_witnesses: &mut Vec<Witness>,
) -> (r: Vec<(WalletTx, Vec<Witness>)>)
    requires
        frontier_wf(tree_frontier(*old(tree))),
        witnesses_wf(old(existing_witnesses)@),
        tree_leaves(*old(tree)).len() + block_output_count(block) <= tree_capacity(),
        forall|i: int|
            0 <= i < old(existing_witnesses)@.len() ==> #[trigger] witness_leaves(
                old(existing_witnesses)@[i],
            ).len() <= tree_leaves(*old(tree)).len(),
    ensures
        frontier_wf(tree_frontier(*final(tree))),
        witnesses_wf(final(existing_witnesses)@),
        reports_wf(r@),
        tree_leaves(*final(tree)) == tree_leaves(*old(tree)) + block_leaves(block),
        final(existing_witnesses)@.len() == old(existing_witnesses)@.len(),
        forall|i: int|
            0 <= i < final(existing_witnesses)@.len() ==> #[trigger] witness_leaves(
                final(existing_witnesses)@[i],
            ) == witness_leaves(old(existing_witnesses)@[i]) + block_leaves(block),
        forall|i: int|
            0 <= i < final(existing_witnesses)@.len() ==> #[trigger] witness_position(
                final(existing_witnesses)@[i],
            ) == witness_position(old(existing_witnesses)@[i]),
        exists|keys: Seq<Vec<u8>>|
            keys.len() == extfvks@.len() && (forall|a: int| 0 <= a < keys.len() ==> (#[trigger] keys[a])@.len() == 32)
                && #[trigger] block_scanned(
                block,
                nullifiers@,
                keys,
                zip212,
                tree_leaves(*old(tree)).len(),
                tree_leaves(*final(tree)),
                r@,
            ),
{
    let keys = viewing_keys(extfvks);
    let ghost b = block;
    let r = scan_block_with_keys(block, &keys, nullifiers, zip212, tree, existing_witnesses);
    assert(block_scanned(b, nullifiers@, keys@, zip212, tree_leaves(*old(tree)).len(), tree_leaves(*tree), r@));
    r
}

/// Append parity: when every commitment of a block is canonical, the block
/// appends exactly one leaf per output, so the tree and every witness that
/// [`scan_block`] advances grow by the block's output count.
pub proof fn lemma_append_parity(block: CompactBlock)
    requires
        all_cmus_canonical(block.vtx@),
    ensures
        block_leaves(block).len() == block_output_count(block),
{
    lemma_tx_leaves_len(block.vtx@);
}

proof fn lemma_output_leaves_prefix(outs: Seq<CompactOutput>, o: int)
    requires
        0 <= o <= outs.len(),
    ensures
        output_leaves(outs.take(o)).is_prefix_of(output_leaves(outs)),
    decreases outs.len(),
{
    if o == outs.len() {
        assert(outs.take(o) =~= outs);
    } else {
        lemma_output_leaves_prefix(outs.drop_last(), o);
        assert(outs.drop_last().take(o) =~= outs.take(o));
    }
}

proof fn lemma_tx_leaves_prefix(txs: Seq<CompactTx>, t: int)
    requires
        0 <= t <= txs.len(),
    ensures
        tx_leaves(txs.take(t)).is_prefix_of(tx_leaves(txs)),
    decreases txs.len(),
{
    if t == txs.len() {
        assert(txs.take(t) =~= txs);
    } else {
        lemma_tx_leaves_prefix(txs.drop_last(), t);
        assert(txs.drop_last().take(t) =~= txs.take(t));
    }
}

/// Position of a new witness: the leaf at the position of output `o` of
/// transaction `t` is that output's commitment, so a witness reported for it
/// by [`scan_block`] sits `k` leaves below the tree's last position, where `k`
/// counts the leaves the block appended after it.
pub proof fn lemma_leaf_at_position(start: Seq<Seq<u8>>, vtx: Seq<CompactTx>, t: int, o: int)
    requires
        0 <= t < vtx.len(),
        0 <= o < vtx[t].outputs@.len(),
        cmu_canonical(vtx[t].outputs@[o].cmu@),
    ensures
        leaf_position(start.len(), vtx, t, o) < start.len() + tx_leaves(vtx).len(),
        (start + tx_leaves(vtx))[leaf_position(start.len(), vtx, t, o) as int]
            == vtx[t].outputs@[o].cmu@,
{
    let outs = vtx[t].outputs@;
    lemma_output_leaves_step(outs, o);
    lemma_output_leaves_prefix(outs, o + 1);
    lemma_tx_leaves_step(vtx, t);
    lemma_tx_leaves_prefix(vtx, t + 1);
    let cmu = vtx[t].outputs@[o].cmu@;
    let a = tx_leaves(vtx.take(t));
    let b = output_leaves(outs);
    let q = output_leaves(outs.take(o)).len();
    assert(output_leaves(outs.take(o + 1)) == output_leaves(outs.take(o)).push(cmu));
    assert(output_leaves(outs.take(o + 1))[q as int] == cmu);
    assert(b[q as int] == cmu);
    assert(tx_leaves(vtx.take(t + 1)) == a + b);
    assert((a + b)[(a.len() + q) as int] == cmu);
    let p = a.len() + q;
    assert(tx_leaves(vtx)[p as int] == cmu);
    assert((start + tx_leaves(vtx))[(start.len() + p) as int] == cmu);
}

} // verus!
