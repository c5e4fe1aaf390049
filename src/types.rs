//! Plain data shared by the validator and the appendable block.

use vstd::prelude::*;

verus! {

broadcast use vstd::array::axiom_array_ext_equal;

/// A transaction hash: an opaque 32-byte identifier.
#[derive(Clone, Copy, Debug, PartialEq, Eq)]
pub struct DeployHash(pub [u8; 32]);

/// A transaction hash tagged with its role.
#[derive(Clone, Copy, Debug, PartialEq, Eq)]
pub enum DeployOrTransferHash {
    Deploy(DeployHash),
    Transfer(DeployHash),
}

impl DeployOrTransferHash {
    /// The role-erased hash.
    pub open spec fn spec_hash(self) -> DeployHash {
        match self {
            DeployOrTransferHash::Deploy(h) => h,
            DeployOrTransferHash::Transfer(h) => h,
        }
    }

    /// The role-erased hash.
    pub fn hash(&self) -> (r: DeployHash)
        ensures
            r == self.spec_hash(),
    {
        match self {
            DeployOrTransferHash::Deploy(h) => *h,
            DeployOrTransferHash::Transfer(h) => *h,
        }
    }
}

/// One signature over a transaction, identified by its signer and signature.
#[derive(Clone, Copy, Debug, PartialEq, Eq, Structural)]
pub struct Approval {
    pub signer: u64,
    pub signature: u64,
}

/// A transaction hash together with the approvals to be used with it.
#[derive(Clone, Debug)]
pub struct DeployWithApprovals {
    pub deploy_hash: DeployHash,
    pub approvals: Vec<Approval>,
}

impl DeployWithApprovals {
    pub open spec fn view(&self) -> (DeployHash, Seq<Approval>) {
        (self.deploy_hash, self.approvals@)
    }
}

/// The structural facts about a transaction that admission into a block depends on.
#[derive(Clone, Debug)]
pub struct DeployInfo {
    pub size_bytes: u64,
    pub gas: u64,
    pub payment_amount: u64,
    pub timestamp: u64,
    pub ttl: u64,
    pub dependency_count: u64,
    pub chain_name: Vec<u8>,
}

/// The chainspec limits that govern which transactions a block may hold.
#[derive(Clone, Copy, Debug, PartialEq, Eq, Structural)]
pub struct DeployConfig {
    pub max_block_size_bytes: u64,
    pub max_deploy_count: u64,
    pub max_transfer_count: u64,
    pub max_gas_limit: u64,
    pub max_approvals_per_block: u64,
    pub max_ttl: u64,
    pub min_ttl: u64,
    pub max_dependencies: u64,
}

/// Compares two hashes byte by byte.
pub fn deploy_hash_eq(a: &DeployHash, b: &DeployHash) -> (r: bool)
    ensures
        r == (*a == *b),
{
    let mut i: usize = 0;
    while i < 32
        invariant
            0 <= i <= 32,
            forall|j: int| 0 <= j < i ==> a.0[j] == b.0[j],
        decreases 32 - i,
    {
        if a.0[i] != b.0[i] {
            return false;
        }
        i = i + 1;
    }
    assert(a.0 =~= b.0);
    true
}

/// Compares two typed hashes: equal roles and equal hashes.
pub fn typed_hash_eq(a: &DeployOrTransferHash, b: &DeployOrTransferHash) -> (r: bool)
    ensures
        r == (*a == *b),
{
    match (a, b) {
        (DeployOrTransferHash::Deploy(x), DeployOrTransferHash::Deploy(y)) => deploy_hash_eq(x, y),
        (DeployOrTransferHash::Transfer(x), DeployOrTransferHash::Transfer(y)) => deploy_hash_eq(
            x,
            y,
        ),
        _ => false,
    }
}

/// Compares two byte strings.
pub fn bytes_eq(a: &Vec<u8>, b: &Vec<u8>) -> (r: bool)
    ensures
        r == (a@ == b@),
{
    if a.len() != b.len() {
        return false;
    }
    let mut i: usize = 0;
    while i < a.len()
        invariant
            0 <= i <= a.len(),
            a.len() == b.len(),
            forall|j: int| 0 <= j < i ==> a@[j] == b@[j],
        decreases a.len() - i,
    {
        if a[i] != b[i] {
            return false;
        }
        i = i + 1;
    }
    assert(a@ =~= b@);
    true
}

/// Copies a byte string.
pub fn copy_bytes(a: &Vec<u8>) -> (r: Vec<u8>)
    ensures
        r@ == a@,
{
    let mut r: Vec<u8> = Vec::new();
    let mut i: usize = 0;
    while i < a.len()
        invariant
            0 <= i <= a.len(),
            r@ == a@.subrange(0, i as int),
        decreases a.len() - i,
    {
        r.push(a[i]);
        i = i + 1;
        assert(r@ =~= a@.subrange(0, i as int));
    }
    assert(r@ =~= a@);
    r
}

/// Copies a set of approvals.
pub fn copy_approvals(a: &Vec<Approval>) -> (r: Vec<Approval>)
    ensures
        r@ == a@,
{
    let mut r: Vec<Approval> = Vec::new();
    let mut i: usize = 0;
    while i < a.len()
        invariant
            0 <= i <= a.len(),
            r@ == a@.subrange(0, i as int),
        decreases a.len() - i,
    {
        r.push(a[i]);
        i = i + 1;
        assert(r@ =~= a@.subrange(0, i as int));
    }
    assert(r@ =~= a@);
    r
}

/// Compares two sets of approvals.
pub fn approvals_eq(a: &Vec<Approval>, b: &Vec<Approval>) -> (r: bool)
    ensures
        r == (a@ == b@),
{
    if a.len() != b.len() {
        return false;
    }
    let mut i: usize = 0;
    while i < a.len()
        invariant
            0 <= i <= a.len(),
            a.len() == b.len(),
            forall|j: int| 0 <= j < i ==> a@[j] == b@[j],
        decreases a.len() - i,
    {
        if a[i] != b[i] {
            return false;
        }
        i = i + 1;
    }
    assert(a@ =~= b@);
    true
}


/// Copies a byte slice into an owned byte string.
pub fn copy_slice(a: &[u8]) -> (r: Vec<u8>)
    ensures
        r@ == a@,
{
    let mut r: Vec<u8> = Vec::new();
    let mut i: usize = 0;
    while i < a.len()
        invariant
            0 <= i <= a@.len(),
            r@ == a@.subrange(0, i as int),
        decreases a@.len() - i,
    {
        r.push(a[i]);
        i = i + 1;
        assert(r@ =~= a@.subrange(0, i as int));
    }
    assert(r@ =~= a@);
    r
}

} // verus!
