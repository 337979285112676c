//! Per-network consensus parameters.
use vstd::prelude::*;
use crate::consensus::block::U256;
use crate::consensus::difficulty::{MAINNET_MAX_TARGET, REGTEST_MAX_TARGET, TESTNET_MAX_TARGET};

verus! {

#[derive(Debug, Clone, Copy)]
pub struct ChainParams {
    pub target_block_time: u64,
    pub max_target: U256,
    pub difficulty_adjustment: bool,
    pub allow_min_difficulty_blocks: bool,
}

#[derive(Debug, Clone, Copy, PartialEq, Eq)]
pub enum Network {
    Mainnet,
    Testnet,
    Regtest,
}

impl Network {
    /// The address-version byte of the network.
    pub open spec fn spec_prefix(self) -> u8 {
        match self {
            Network::Mainnet => 0x00,
            Network::Testnet => 0x6f,
            Network::Regtest => 0x6f,
        }
    }

    pub fn prefix(&self) -> (p: u8)
        ensures
            p == self.spec_prefix(),
    {
        match self {
            Network::Mainnet => 0x00,
            Network::Testnet => 0x6f,
            Network::Regtest => 0x6f,
        }
    }

    /// The consensus parameters of the network.
    pub open spec fn spec_params(self) -> ChainParams {
        match self {
            Network::Mainnet => ChainParams {
                target_block_time: 150,
                max_target: U256(MAINNET_MAX_TARGET),
                difficulty_adjustment: true,
                allow_min_difficulty_blocks: false,
            },
            Network::Testnet => ChainParams {
                target_block_time: 150,
                max_target: U256(TESTNET_MAX_TARGET),
                difficulty_adjustment: true,
                allow_min_difficulty_blocks: true,
            },
            Network::Regtest => ChainParams {
                target_block_time: 1,
                max_target: U256(REGTEST_MAX_TARGET),
                difficulty_adjustment: false,
                allow_min_difficulty_blocks: true,
            },
        }
    }

    pub fn params(&self) -> (p: ChainParams)
        ensures
            p == self.spec_params(),
    {
        match self {
            Network::Mainnet => ChainParams {
                target_block_time: 150,
                max_target: U256(MAINNET_MAX_TARGET),
                difficulty_adjustment: true,
                allow_min_difficulty_blocks: false,
            },
            Network::Testnet => ChainParams {
                target_block_time: 150,
                max_target: U256(TESTNET_MAX_TARGET),
                difficulty_adjustment: true,
                allow_min_difficulty_blocks: true,
            },
            Network::Regtest => ChainParams {
                target_block_time: 1,
                max_target: U256(REGTEST_MAX_TARGET),
                difficulty_adjustment: false,
                allow_min_difficulty_blocks: true,
            },
        }
    }
}

} // verus!
