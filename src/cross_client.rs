use vstd::prelude::*;

use std::sync::Arc;

use crate::consensus::{Block, Proof};
use crate::types::{Address, H256, SignedTransaction};

verus! {

/// An event log that a transaction emitted.
#[derive(Clone, Debug)]
pub struct Log {
    pub address: Address,
    pub topics: Vec<H256>,
    pub data: Vec<u8>,
}

/// The services that the cross-chain client drives.
pub trait CrossAdapter {
    fn watch_ckb_client(&self) -> Result<(), String>;

    fn send_axon_tx(&self, stx: SignedTransaction) -> Result<(), String>;

    fn send_ckb_tx(&self) -> Result<(), String>;
}

/// What the cross-chain client is told of committed blocks.
pub trait CrossClient {
    fn set_evm_log(&self, block_number: u64, block_hash: H256, logs: &Vec<Vec<Log>>);

    fn set_checkpoint(&self, block: Block, proof: Proof);
}

/// The cross-chain client. It takes note of nothing yet.
pub struct CrossChainImpl<Adapter> {
    adapter: Arc<Adapter>,
}

impl<Adapter: CrossAdapter> CrossClient for CrossChainImpl<Adapter> {
    fn set_evm_log(&self, block_number: u64, block_hash: H256, logs: &Vec<Vec<Log>>) {
    }

    fn set_checkpoint(&self, block: Block, proof: Proof) {
    }
}

impl<Adapter: CrossAdapter> CrossChainImpl<Adapter> {
    pub closed spec fn adapter(&self) -> Arc<Adapter> {
        self.adapter
    }

    pub fn new(adapter: Arc<Adapter>) -> (r: Self)
        ensures
            r.adapter() == adapter,
    {
        CrossChainImpl { adapter }
    }
}

} // verus!
