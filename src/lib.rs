//! Scanning of compact Sapling blocks for a set of tracked viewing keys.
//!
//! - [`compact`]: the compact block model and the leaves a block adds to the
//!   note-commitment tree;
//! - [`proto`]: decoding compact blocks from their protocol-buffer encoding;
//! - [`welding_rig`]: scanning one block, advancing the tree and every witness
//!   in lock-step with trial decryption;
//! - [`scan`]: the per-block decisions of scanning a block cache into a wallet;
//! - [`encoding`]: the stored form of trees and witnesses;
//! - [`sapling`]: the Sapling primitives the scanner relies on.
pub mod compact;
pub mod encoding;
pub mod proto;
pub mod sapling;
pub mod scan;
pub mod wallet;
pub mod welding_rig;
