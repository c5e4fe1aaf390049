//! Incremental structural admission of transactions into a block under chainspec limits.

use vstd::prelude::*;
use crate::types::{
    Approval, DeployConfig, DeployHash, DeployInfo, DeployWithApprovals, bytes_eq, copy_bytes,
    deploy_hash_eq,
};

verus! {

/// Why a transaction could not be admitted into a block.
#[derive(Clone, Copy, Debug, PartialEq, Eq, Structural)]
pub enum AddError {
    /// The hash is already in the block, in either role.
    Duplicate,
    /// The time to live lies outside the configured bounds.
    InvalidTtl,
    /// The timestamp is after the block's, or the transaction expired before it.
    TimestampOutOfRange,
    /// The transaction has more dependencies than allowed.
    ExcessiveDependencies,
    /// The transaction names another chain.
    ChainNameMismatch,
    /// The block already holds as many deploys as allowed.
    DeployCount,
    /// The block already holds as many transfers as allowed.
    TransferCount,
    /// The block's approvals would exceed the limit.
    ApprovalCount,
    /// The block's gas would exceed the limit.
    GasLimit,
    /// The block's size would exceed the limit.
    BlockSize,
}

/// What an appendable block holds, as mathematical values.
pub struct AppendableBlockView {
    pub config: DeployConfig,
    pub timestamp: u64,
    pub chain_name: Seq<u8>,
    pub deploys: Seq<(DeployHash, Seq<Approval>)>,
    pub transfers: Seq<(DeployHash, Seq<Approval>)>,
    pub total_size: nat,
    pub total_gas: nat,
    pub total_approvals: nat,
}

impl AppendableBlockView {
    /// The hash is in the block, as a deploy or as a transfer.
    pub open spec fn contains_hash(self, h: DeployHash) -> bool {
        (exists|i: int| 0 <= i < self.deploys.len() && self.deploys[i].0 == h) || (exists|i: int|
            0 <= i < self.transfers.len() && self.transfers[i].0 == h)
    }

    /// The first rule that admitting the transaction would break, if any.
    pub open spec fn rejection(
        self,
        is_transfer: bool,
        dwa: (DeployHash, Seq<Approval>),
        info: DeployInfo,
    ) -> Option<AddError> {
        if self.contains_hash(dwa.0) {
            Some(AddError::Duplicate)
        } else if info.ttl < self.config.min_ttl || info.ttl > self.config.max_ttl {
            Some(AddError::InvalidTtl)
        } else if info.timestamp > self.timestamp || info.timestamp + info.ttl < self.timestamp {
            Some(AddError::TimestampOutOfRange)
        } else if info.dependency_count > self.config.max_dependencies {
            Some(AddError::ExcessiveDependencies)
        } else if info.chain_name@ != self.chain_name {
            Some(AddError::ChainNameMismatch)
        } else if !is_transfer && self.deploys.len() + 1 > self.config.max_deploy_count {
            Some(AddError::DeployCount)
        } else if is_transfer && self.transfers.len() + 1 > self.config.max_transfer_count {
            Some(AddError::TransferCount)
        } else if self.total_approvals + dwa.1.len() > self.config.max_approvals_per_block {
            Some(AddError::ApprovalCount)
        } else if self.total_gas + info.gas > self.config.max_gas_limit {
            Some(AddError::GasLimit)
        } else if self.total_size + info.size_bytes > self.config.max_block_size_bytes {
            Some(AddError::BlockSize)
        } else {
            None
        }
    }

    /// The block after admitting the transaction.
    pub open spec fn appended(
        self,
        is_transfer: bool,
        dwa: (DeployHash, Seq<Approval>),
        info: DeployInfo,
    ) -> AppendableBlockView {
        AppendableBlockView {
            deploys: if is_transfer {
                self.deploys
            } else {
                self.deploys.push(dwa)
            },
            transfers: if is_transfer {
                self.transfers.push(dwa)
            } else {
                self.transfers
            },
            total_size: self.total_size + info.size_bytes as nat,
            total_gas: self.total_gas + info.gas as nat,
            total_approvals: self.total_approvals + dwa.1.len(),
            ..self
        }
    }
}

/// A block under construction: the transactions admitted so far and their totals.
pub struct AppendableBlock {
    deploy_config: DeployConfig,
    timestamp: u64,
    chain_name: Vec<u8>,
    deploys: Vec<DeployWithApprovals>,
    transfers: Vec<DeployWithApprovals>,
    total_size: u64,
    total_gas: u64,
    total_approvals: u64,
}

impl AppendableBlock {
    pub closed spec fn view(&self) -> AppendableBlockView {
        AppendableBlockView {
            config: self.deploy_config,
            timestamp: self.timestamp,
            chain_name: self.chain_name@,
            deploys: self.deploys@.map_values(|d: DeployWithApprovals| d@),
            transfers: self.transfers@.map_values(|d: DeployWithApprovals| d@),
            total_size: self.total_size as nat,
            total_gas: self.total_gas as nat,
            total_approvals: self.total_approvals as nat,
        }
    }

    /// The totals and counts stay within the limits.
    pub closed spec fn wf(&self) -> bool {
        &&& self.total_size <= self.deploy_config.max_block_size_bytes
        &&& self.total_gas <= self.deploy_config.max_gas_limit
        &&& self.total_approvals <= self.deploy_config.max_approvals_per_block
        &&& self.deploys@.len() <= self.deploy_config.max_deploy_count
        &&& self.transfers@.len() <= self.deploy_config.max_transfer_count
    }

    /// An empty block with the given limits, timestamp and chain name.
    pub fn new(deploy_config: DeployConfig, timestamp: u64, chain_name: &Vec<u8>) -> (r: Self)
        ensures
            r.wf(),
            r@ == (AppendableBlockView {
                config: deploy_config,
                timestamp,
                chain_name: chain_name@,
                deploys: Seq::empty(),
                transfers: Seq::empty(),
                total_size: 0,
                total_gas: 0,
                total_approvals: 0,
            }),
    {
        let r = AppendableBlock {
            deploy_config,
            timestamp,
            chain_name: copy_bytes(chain_name),
            deploys: Vec::new(),
            transfers: Vec::new(),
            total_size: 0,
            total_gas: 0,
            total_approvals: 0,
        };
        assert(r@.deploys =~= Seq::empty());
        assert(r@.transfers =~= Seq::empty());
        r
    }

    /// The block's timestamp.
    pub fn timestamp(&self) -> (r: u64)
        ensures
            r == self@.timestamp,
    {
        self.timestamp
    }

    fn contains_hash(&self, h: &DeployHash) -> (r: bool)
        ensures
            r == self@.contains_hash(*h),
    {
        let mut i: usize = 0;
        while i < self.deploys.len()
            invariant
                0 <= i <= self.deploys@.len(),
                forall|j: int| 0 <= j < i ==> self.deploys@[j].deploy_hash != *h,
            decreases self.deploys@.len() - i,
        {
            if deploy_hash_eq(&self.deploys[i].deploy_hash, h) {
                assert(self@.deploys[i as int].0 == *h);
                return true;
            }
            i = i + 1;
        }
        let mut i: usize = 0;
        while i < self.transfers.len()
            invariant
                0 <= i <= self.transfers@.len(),
                forall|j: int| 0 <= j < i ==> self.transfers@[j].deploy_hash != *h,
            decreases self.transfers@.len() - i,
        {
            if deploy_hash_eq(&self.transfers[i].deploy_hash, h) {
                assert(self@.transfers[i as int].0 == *h);
                return true;
            }
            i = i + 1;
        }
        assert(!self@.contains_hash(*h)) by {
            assert forall|j: int| 0 <= j < self@.deploys.len() implies self@.deploys[j].0
                != *h by {
                assert(self@.deploys[j] == self.deploys@[j]@);
            }
            assert forall|j: int| 0 <= j < self@.transfers.len() implies self@.transfers[j].0
                != *h by {
                assert(self@.transfers[j] == self.transfers@[j]@);
            }
        }
        false
    }

    fn add(&mut self, is_transfer: bool, dwa: DeployWithApprovals, info: &DeployInfo) -> (r: Result<
        (),
        AddError,
    >)
        requires
            old(self).wf(),
        ensures
            final(self).wf(),
            match old(self)@.rejection(is_transfer, dwa@, *info) {
                Some(e) => r == Err::<(), AddError>(e) && final(self)@ == old(self)@,
                None => r is Ok && final(self)@ == old(self)@.appended(is_transfer, dwa@, *info),
            },
    {
        let config = self.deploy_config;
        if self.contains_hash(&dwa.deploy_hash) {
            return Err(AddError::Duplicate);
        }
        if info.ttl < config.min_ttl || info.ttl > config.max_ttl {
            return Err(AddError::InvalidTtl);
        }
        if info.timestamp > self.timestamp || self.timestamp - info.timestamp > info.ttl {
            return Err(AddError::TimestampOutOfRange);
        }
        if info.dependency_count > config.max_dependencies {
            return Err(AddError::ExcessiveDependencies);
        }
        if !bytes_eq(&info.chain_name, &self.chain_name) {
            return Err(AddError::ChainNameMismatch);
        }
        if !is_transfer && self.deploys.len() as u64 >= config.max_deploy_count {
            return Err(AddError::DeployCount);
        }
        if is_transfer && self.transfers.len() as u64 >= config.max_transfer_count {
            return Err(AddError::TransferCount);
        }
        let n_approvals = dwa.approvals.len() as u64;
        if n_approvals > config.max_approvals_per_block - self.total_approvals {
            return Err(AddError::ApprovalCount);
        }
        if info.gas > config.max_gas_limit - self.total_gas {
            return Err(AddError::GasLimit);
        }
        if info.size_bytes > config.max_block_size_bytes - self.total_size {
            return Err(AddError::BlockSize);
        }
        let ghost pre = self@;
        let ghost d = dwa@;
        self.total_approvals = self.total_approvals + n_approvals;
        self.total_gas = self.total_gas + info.gas;
        self.total_size = self.total_size + info.size_bytes;
        if is_transfer {
            let ghost old_transfers = self.transfers@;
            self.transfers.push(dwa);
            assert(self@.transfers =~= pre.transfers.push(d)) by {
                assert(self.transfers@ == old_transfers.push(dwa));
            }
            assert(self@.deploys =~= pre.deploys);
        } else {
            let ghost old_deploys = self.deploys@;
            self.deploys.push(dwa);
            assert(self@.deploys =~= pre.deploys.push(d)) by {
                assert(self.deploys@ == old_deploys.push(dwa));
            }
            assert(self@.transfers =~= pre.transfers);
        }
        Ok(())
    }

    /// Admits a transaction in the deploy role, or names the first rule it breaks.
    pub fn add_deploy(&mut self, dwa: DeployWithApprovals, info: &DeployInfo) -> (r: Result<
        (),
        AddError,
    >)
        requires
            old(self).wf(),
        ensures
            final(self).wf(),
            match old(self)@.rejection(false, dwa@, *info) {
                Some(e) => r == Err::<(), AddError>(e) && final(self)@ == old(self)@,
                None => r is Ok && final(self)@ == old(self)@.appended(false, dwa@, *info),
            },
    {
        self.add(false, dwa, info)
    }

    /// Admits a transaction in the transfer role, or names the first rule it breaks.
    pub fn add_transfer(&mut self, dwa: DeployWithApprovals, info: &DeployInfo) -> (r: Result<
        (),
        AddError,
    >)
        requires
            old(self).wf(),
        ensures
            final(self).wf(),
            match old(self)@.rejection(true, dwa@, *info) {
                Some(e) => r == Err::<(), AddError>(e) && final(self)@ == old(self)@,
                None => r is Ok && final(self)@ == old(self)@.appended(true, dwa@, *info),
            },
    {
        self.add(true, dwa, info)
    }
}

} // verus!
