//! What a scan reports about the transactions relevant to the tracked accounts.
use vstd::prelude::*;

use sapling_crypto::{Note, PaymentAddress};

verus! {

/// A spend of a tracked note: its index among the transaction's spends, the
/// nullifier revealed, and the account that owned the note.
pub struct WalletShieldedSpend {
    pub index: usize,
    pub nf: Vec<u8>,
    pub account: usize,
}

/// An output received by a tracked account.
///
/// `is_change` is set when the same transaction also spends a note of `account`.
pub struct WalletShieldedOutput {
    pub index: usize,
    pub cmu: Vec<u8>,
    pub epk: Vec<u8>,
    pub account: usize,
    pub note: Note,
    pub to: PaymentAddress,
    pub is_change: bool,
}

/// A transaction with at least one spend or output relevant to the tracked
/// accounts. `index` is its position within the block.
pub struct WalletTx {
    pub txid: Vec<u8>,
    pub index: usize,
    pub num_spends: usize,
    pub num_outputs: usize,
    pub shielded_spends: Vec<WalletShieldedSpend>,
    pub shielded_outputs: Vec<WalletShieldedOutput>,
}

} // verus!
