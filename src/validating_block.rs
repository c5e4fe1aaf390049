//! A uniform view over the two kinds of candidate block.

use vstd::prelude::*;
use crate::types::{
    Approval, DeployHash, DeployOrTransferHash, DeployWithApprovals, approvals_eq, copy_approvals,
    deploy_hash_eq, typed_hash_eq,
};

verus! {

/// A block received after consensus: hashes only.
#[derive(Clone, Debug)]
pub struct FinalizedBlock {
    pub timestamp: u64,
    pub deploy_hashes: Vec<DeployHash>,
    pub transfer_hashes: Vec<DeployHash>,
}

/// A freshly proposed block: each hash comes with the approvals consensus fixed for it.
#[derive(Clone, Debug)]
pub struct ProposedBlock {
    pub timestamp: u64,
    pub deploys: Vec<DeployWithApprovals>,
    pub transfers: Vec<DeployWithApprovals>,
}

/// A candidate block whose transactions are to be validated.
#[derive(Clone, Debug)]
pub enum ValidatingBlock {
    Block(FinalizedBlock),
    ProposedBlock(ProposedBlock),
}

/// A candidate block as mathematical values; two candidates are the same block when their
/// views are equal.
pub enum ValidatingBlockView {
    Block {
        timestamp: u64,
        deploy_hashes: Seq<DeployHash>,
        transfer_hashes: Seq<DeployHash>,
    },
    ProposedBlock {
        timestamp: u64,
        deploys: Seq<(DeployHash, Seq<Approval>)>,
        transfers: Seq<(DeployHash, Seq<Approval>)>,
    },
}

/// A typed hash with its authoritative approvals, if any, as mathematical values.
pub type EntryView = (DeployOrTransferHash, Option<Seq<Approval>>);

/// A typed hash with its authoritative approvals, if any.
pub type Entry = (DeployOrTransferHash, Option<Vec<Approval>>);

pub open spec fn entry_view(e: Entry) -> EntryView {
    (
        e.0,
        match e.1 {
            Some(a) => Some(a@),
            None => None,
        },
    )
}

pub open spec fn entries_view(s: Seq<Entry>) -> Seq<EntryView> {
    s.map_values(|e: Entry| entry_view(e))
}

pub open spec fn hash_entries(s: Seq<DeployHash>, is_transfer: bool) -> Seq<EntryView> {
    s.map_values(
        |h: DeployHash|
            (
                if is_transfer {
                    DeployOrTransferHash::Transfer(h)
                } else {
                    DeployOrTransferHash::Deploy(h)
                },
                None::<Seq<Approval>>,
            ),
    )
}

pub open spec fn approved_entries(s: Seq<(DeployHash, Seq<Approval>)>, is_transfer: bool) -> Seq<
    EntryView,
> {
    s.map_values(
        |d: (DeployHash, Seq<Approval>)|
            (
                if is_transfer {
                    DeployOrTransferHash::Transfer(d.0)
                } else {
                    DeployOrTransferHash::Deploy(d.0)
                },
                Some(d.1),
            ),
    )
}

impl ValidatingBlockView {
    pub open spec fn timestamp(self) -> u64 {
        match self {
            ValidatingBlockView::Block { timestamp, .. } => timestamp,
            ValidatingBlockView::ProposedBlock { timestamp, .. } => timestamp,
        }
    }

    pub open spec fn deploy_hashes(self) -> Seq<DeployHash> {
        match self {
            ValidatingBlockView::Block { deploy_hashes, .. } => deploy_hashes,
            ValidatingBlockView::ProposedBlock { deploys, .. } => deploys.map_values(
                |d: (DeployHash, Seq<Approval>)| d.0,
            ),
        }
    }

    pub open spec fn transfer_hashes(self) -> Seq<DeployHash> {
        match self {
            ValidatingBlockView::Block { transfer_hashes, .. } => transfer_hashes,
            ValidatingBlockView::ProposedBlock { transfers, .. } => transfers.map_values(
                |d: (DeployHash, Seq<Approval>)| d.0,
            ),
        }
    }

    /// All deploys, then all transfers, each in the block's own order, with the authoritative
    /// approvals of a proposed block.
    pub open spec fn entries(self) -> Seq<EntryView> {
        match self {
            ValidatingBlockView::Block { deploy_hashes, transfer_hashes, .. } => hash_entries(
                deploy_hashes,
                false,
            ) + hash_entries(transfer_hashes, true),
            ValidatingBlockView::ProposedBlock { deploys, transfers, .. } => approved_entries(
                deploys,
                false,
            ) + approved_entries(transfers, true),
        }
    }

    /// The number of transactions the block lists, in both roles.
    pub open spec fn hash_count(self) -> nat {
        self.deploy_hashes().len() + self.transfer_hashes().len()
    }
}

fn hashes_eq(a: &Vec<DeployHash>, b: &Vec<DeployHash>) -> (r: bool)
    ensures
        r == (a@ == b@),
{
    if a.len() != b.len() {
        return false;
    }
    let mut i: usize = 0;
    while i < a.len()
        invariant
            0 <= i <= a.len(),
            a.len() == b.len(),
            forall|j: int| 0 <= j < i ==> a@[j] == b@[j],
        decreases a.len() - i,
    {
        if !deploy_hash_eq(&a[i], &b[i]) {
            return false;
        }
        i = i + 1;
    }
    assert(a@ =~= b@);
    true
}

pub open spec fn dwa_views(s: Seq<DeployWithApprovals>) -> Seq<(DeployHash, Seq<Approval>)> {
    s.map_values(|d: DeployWithApprovals| d@)
}

fn dwas_eq(a: &Vec<DeployWithApprovals>, b: &Vec<DeployWithApprovals>) -> (r: bool)
    ensures
        r == (dwa_views(a@) == dwa_views(b@)),
{
    if a.len() != b.len() {
        assert(dwa_views(a@).len() != dwa_views(b@).len());
        return false;
    }
    let mut i: usize = 0;
    while i < a.len()
        invariant
            0 <= i <= a.len(),
            a.len() == b.len(),
            forall|j: int| 0 <= j < i ==> a@[j]@ == b@[j]@,
        decreases a.len() - i,
    {
        if !deploy_hash_eq(&a[i].deploy_hash, &b[i].deploy_hash) || !approvals_eq(
            &a[i].approvals,
            &b[i].approvals,
        ) {
            assert(dwa_views(a@)[i as int] != dwa_views(b@)[i as int]);
            return false;
        }
        i = i + 1;
    }
    assert(dwa_views(a@) =~= dwa_views(b@));
    true
}

fn push_hash_entries(r: &mut Vec<Entry>, s: &Vec<DeployHash>, is_transfer: bool)
    ensures
        entries_view(final(r)@) == entries_view(old(r)@) + hash_entries(s@, is_transfer),
{
    let ghost start = entries_view(r@);
    let mut i: usize = 0;
    while i < s.len()
        invariant
            0 <= i <= s@.len(),
            entries_view(r@) == start + hash_entries(s@.subrange(0, i as int), is_transfer),
        decreases s@.len() - i,
    {
        let t = if is_transfer {
            DeployOrTransferHash::Transfer(s[i])
        } else {
            DeployOrTransferHash::Deploy(s[i])
        };
        let ghost before = r@;
        r.push((t, None));
        i = i + 1;
        assert(entries_view(r@) =~= entries_view(before).push(entry_view((t, None))));
        assert(hash_entries(s@.subrange(0, i as int), is_transfer) =~= hash_entries(
            s@.subrange(0, i - 1),
            is_transfer,
        ).push(entry_view((t, None))));
    }
    assert(s@.subrange(0, s@.len() as int) =~= s@);
}

fn push_approved_entries(r: &mut Vec<Entry>, s: &Vec<DeployWithApprovals>, is_transfer: bool)
    ensures
        entries_view(final(r)@) == entries_view(old(r)@) + approved_entries(
            dwa_views(s@),
            is_transfer,
        ),
{
    let ghost start = entries_view(r@);
    let mut i: usize = 0;
    while i < s.len()
        invariant
            0 <= i <= s@.len(),
            entries_view(r@) == start + approved_entries(
                dwa_views(s@.subrange(0, i as int)),
                is_transfer,
            ),
        decreases s@.len() - i,
    {
        let h = s[i].deploy_hash;
        let t = if is_transfer {
            DeployOrTransferHash::Transfer(h)
        } else {
            DeployOrTransferHash::Deploy(h)
        };
        let a = copy_approvals(&s[i].approvals);
        let ghost before = r@;
        let ghost e = (t, Some(a));
        r.push((t, Some(a)));
        i = i + 1;
        assert(entries_view(r@) =~= entries_view(before).push(entry_view(e)));
        assert(approved_entries(dwa_views(s@.subrange(0, i as int)), is_transfer) =~= approved_entries(
            dwa_views(s@.subrange(0, i - 1)),
            is_transfer,
        ).push(entry_view(e)));
    }
    assert(s@.subrange(0, s@.len() as int) =~= s@);
}

fn copy_hashes(s: &Vec<DeployHash>) -> (r: Vec<DeployHash>)
    ensures
        r@ == s@,
{
    let mut r: Vec<DeployHash> = Vec::new();
    let mut i: usize = 0;
    while i < s.len()
        invariant
            0 <= i <= s@.len(),
            r@ == s@.subrange(0, i as int),
        decreases s@.len() - i,
    {
        r.push(s[i]);
        i = i + 1;
        assert(r@ =~= s@.subrange(0, i as int));
    }
    assert(r@ =~= s@);
    r
}

fn hashes_of(s: &Vec<DeployWithApprovals>) -> (r: Vec<DeployHash>)
    ensures
        r@ == dwa_views(s@).map_values(|d: (DeployHash, Seq<Approval>)| d.0),
{
    let mut r: Vec<DeployHash> = Vec::new();
    let mut i: usize = 0;
    while i < s.len()
        invariant
            0 <= i <= s@.len(),
            r@ == dwa_views(s@.subrange(0, i as int)).map_values(
                |d: (DeployHash, Seq<Approval>)| d.0,
            ),
        decreases s@.len() - i,
    {
        r.push(s[i].deploy_hash);
        i = i + 1;
        assert(r@ =~= dwa_views(s@.subrange(0, i as int)).map_values(
            |d: (DeployHash, Seq<Approval>)| d.0,
        ));
    }
    assert(s@.subrange(0, s@.len() as int) =~= s@);
    r
}

/// How many entries of `es` carry the typed hash `t`.
pub open spec fn multiplicity(es: Seq<EntryView>, t: DeployOrTransferHash) -> nat
    decreases es.len(),
{
    if es.len() == 0 {
        0
    } else {
        multiplicity(es.drop_last(), t) + if es.last().0 == t {
            1nat
        } else {
            0nat
        }
    }
}

proof fn lemma_multiplicity_zero(es: Seq<EntryView>, t: DeployOrTransferHash)
    requires
        forall|k: int| 0 <= k < es.len() ==> es[k].0 != t,
    ensures
        multiplicity(es, t) == 0,
    decreases es.len(),
{
    if es.len() > 0 {
        lemma_multiplicity_zero(es.drop_last(), t);
    }
}

/// `k` is the first position at which `es` lists `t`.
pub open spec fn first_listed(es: Seq<EntryView>, t: DeployOrTransferHash, k: int) -> bool {
    0 <= k < es.len() && es[k].0 == t && forall|j: int| 0 <= j < k ==> es[j].0 != t
}

proof fn lemma_first_listed_unique(es: Seq<EntryView>, t: DeployOrTransferHash, k1: int, k2: int)
    requires
        first_listed(es, t, k1),
        first_listed(es, t, k2),
    ensures
        k1 == k2,
{
    if k1 < k2 {
        assert(es[k1].0 == t);
    } else if k2 < k1 {
        assert(es[k2].0 == t);
    }
}

/// How many entries carry `t`, and whether none of those before `i` does.
fn count_typed(es: &Vec<Entry>, t: &DeployOrTransferHash, i: usize) -> (r: (u64, bool))
    requires
        i < es@.len(),
    ensures
        r.0 as nat == multiplicity(entries_view(es@), *t),
        r.1 <==> forall|k: int| 0 <= k < i ==> entries_view(es@)[k].0 != *t,
{
    let ghost ev = entries_view(es@);
    let mut first = true;
    let mut c: u64 = 0;
    let mut j: usize = 0;
    while j < es.len()
        invariant
            0 <= i < es@.len(),
            0 <= j <= es@.len(),
            ev == entries_view(es@),
            c as nat == multiplicity(ev.subrange(0, j as int), *t),
            c <= j,
            first <==> forall|k: int| 0 <= k < j && k < i ==> ev[k].0 != *t,
        decreases es@.len() - j,
    {
        assert(ev.subrange(0, j + 1).drop_last() =~= ev.subrange(0, j as int));
        assert(ev[j as int].0 == es@[j as int].0);
        if typed_hash_eq(&es[j].0, t) {
            c = c + 1;
            if j < i {
                first = false;
            }
        }
        j = j + 1;
    }
    assert(ev.subrange(0, ev.len() as int) =~= ev);
    (c, first)
}

impl ValidatingBlock {
    pub open spec fn view(&self) -> ValidatingBlockView {
        match self {
            ValidatingBlock::Block(b) => ValidatingBlockView::Block {
                timestamp: b.timestamp,
                deploy_hashes: b.deploy_hashes@,
                transfer_hashes: b.transfer_hashes@,
            },
            ValidatingBlock::ProposedBlock(p) => ValidatingBlockView::ProposedBlock {
                timestamp: p.timestamp,
                deploys: dwa_views(p.deploys@),
                transfers: dwa_views(p.transfers@),
            },
        }
    }

    /// The block's timestamp; for a proposed block, that of its consensus context.
    pub fn timestamp(&self) -> (r: u64)
        ensures
            r == self@.timestamp(),
    {
        match self {
            ValidatingBlock::Block(b) => b.timestamp,
            ValidatingBlock::ProposedBlock(p) => p.timestamp,
        }
    }

    /// The hashes in the deploy role, in the block's order.
    pub fn deploy_hashes(&self) -> (r: Vec<DeployHash>)
        ensures
            r@ == self@.deploy_hashes(),
    {
        match self {
            ValidatingBlock::Block(b) => copy_hashes(&b.deploy_hashes),
            ValidatingBlock::ProposedBlock(p) => hashes_of(&p.deploys),
        }
    }

    /// The hashes in the transfer role, in the block's order.
    pub fn transfer_hashes(&self) -> (r: Vec<DeployHash>)
        ensures
            r@ == self@.transfer_hashes(),
    {
        match self {
            ValidatingBlock::Block(b) => copy_hashes(&b.transfer_hashes),
            ValidatingBlock::ProposedBlock(p) => hashes_of(&p.transfers),
        }
    }

    /// All deploys then all transfers, typed, each with the block's authoritative approvals
    /// (`Some` exactly for a proposed block).
    pub fn deploys_and_transfers_iter(&self) -> (r: Vec<Entry>)
        ensures
            entries_view(r@) == self@.entries(),
    {
        let mut r: Vec<Entry> = Vec::new();
        assert(entries_view(r@) =~= Seq::empty());
        match self {
            ValidatingBlock::Block(b) => {
                push_hash_entries(&mut r, &b.deploy_hashes, false);
                push_hash_entries(&mut r, &b.transfer_hashes, true);
                assert(entries_view(r@) =~= self@.entries());
            },
            ValidatingBlock::ProposedBlock(p) => {
                push_approved_entries(&mut r, &p.deploys, false);
                push_approved_entries(&mut r, &p.transfers, true);
                assert(entries_view(r@) =~= self@.entries());
            },
        }
        r
    }

    /// Whether two candidates are the same block.
    pub fn same_block(&self, other: &ValidatingBlock) -> (r: bool)
        ensures
            r == (self@ == other@),
    {
        match (self, other) {
            (ValidatingBlock::Block(a), ValidatingBlock::Block(b)) => {
                a.timestamp == b.timestamp && hashes_eq(&a.deploy_hashes, &b.deploy_hashes)
                    && hashes_eq(&a.transfer_hashes, &b.transfer_hashes)
            },
            (ValidatingBlock::ProposedBlock(a), ValidatingBlock::ProposedBlock(b)) => {
                a.timestamp == b.timestamp && dwas_eq(&a.deploys, &b.deploys) && dwas_eq(
                    &a.transfers,
                    &b.transfers,
                )
            },
            _ => false,
        }
    }

    /// Each typed hash that the block lists more than once, with the number of times, in the
    /// order of first listing.
    pub fn duplicates(&self) -> (r: Vec<(DeployOrTransferHash, u64)>)
        ensures
            forall|i: int|
                0 <= i < r@.len() ==> r@[i].1 > 1 && r@[i].1 as nat == multiplicity(
                    self@.entries(),
                    (#[trigger] r@[i]).0,
                ),
            forall|t: DeployOrTransferHash|
                multiplicity(self@.entries(), t) > 1 ==> exists|i: int|
                    0 <= i < r@.len() && #[trigger] r@[i].0 == t,
            forall|i: int, j: int| 0 <= i < r@.len() && 0 <= j < r@.len() && i != j ==> r@[i].0 != r@[j].0,
            forall|a: int, b: int, ka: int, kb: int|
                0 <= a < b < r@.len() && first_listed(self@.entries(), r@[a].0, ka) && first_listed(
                    self@.entries(),
                    r@[b].0,
                    kb,
                ) ==> ka < kb,
    {
        let es = self.deploys_and_transfers_iter();
        let ghost ev = self@.entries();
        let mut r: Vec<(DeployOrTransferHash, u64)> = Vec::new();
        let ghost mut firsts: Seq<int> = Seq::empty();
        let mut i: usize = 0;
        while i < es.len()
            invariant
                0 <= i <= es@.len(),
                ev == entries_view(es@),
                forall|a: int|
                    0 <= a < r@.len() ==> r@[a].1 > 1 && r@[a].1 as nat == multiplicity(
                        ev,
                        (#[trigger] r@[a]).0,
                    ),
                forall|a: int| 0 <= a < r@.len() ==> exists|k: int| 0 <= k < i && ev[k].0 == #[trigger] r@[a].0,
                forall|k: int|
                    0 <= k < i && multiplicity(ev, #[trigger] ev[k].0) > 1 ==> exists|a: int|
                        0 <= a < r@.len() && r@[a].0 == ev[k].0,
                forall|a: int, b: int|
                    0 <= a < r@.len() && 0 <= b < r@.len() && a != b ==> r@[a].0 != r@[b].0,
                firsts.len() == r@.len(),
                forall|a: int| 0 <= a < r@.len() ==> first_listed(ev, r@[a].0, #[trigger] firsts[a]),
                forall|a: int| 0 <= a < r@.len() ==> #[trigger] firsts[a] < i,
                forall|a: int, b: int| 0 <= a < b < r@.len() ==> firsts[a] < firsts[b],
            decreases es@.len() - i,
        {
            let t = es[i].0;
            assert(ev[i as int].0 == t);
            let (c, first) = count_typed(&es, &t, i);
            let ghost r_before = r@;
            if first && c > 1 {
                r.push((t, c));
                proof {
                    firsts = firsts.push(i as int);
                    assert(first_listed(ev, t, i as int));
                    assert forall|a: int, b: int|
                        0 <= a < r@.len() && 0 <= b < r@.len() && a != b implies r@[a].0
                        != r@[b].0 by {
                        if a < r_before.len() && b < r_before.len() {
                        } else if a < r_before.len() {
                            let k = choose|k: int| 0 <= k < i && ev[k].0 == r_before[a].0;
                        } else if b < r_before.len() {
                            let k = choose|k: int| 0 <= k < i && ev[k].0 == r_before[b].0;
                        }
                    }
                }
            }
            proof {
                assert forall|a: int| 0 <= a < r@.len() implies exists|k: int|
                    0 <= k < i + 1 && ev[k].0 == #[trigger] r@[a].0 by {
                    if a < r_before.len() {
                        let k = choose|k: int| 0 <= k < i && ev[k].0 == r_before[a].0;
                        assert(r@[a] == r_before[a]);
                    } else {
                        assert(ev[i as int].0 == r@[a].0);
                    }
                }
                assert forall|k: int|
                    0 <= k < i + 1 && multiplicity(ev, #[trigger] ev[k].0) > 1 implies exists|a: int|
                        0 <= a < r@.len() && r@[a].0 == ev[k].0 by {
                    if k < i {
                        let a = choose|a: int| 0 <= a < r_before.len() && r_before[a].0 == ev[k].0;
                        assert(r@[a] == r_before[a]);
                    } else if first {
                        assert(r@[r@.len() - 1].0 == t);
                    } else {
                        let k2 = choose|k2: int| 0 <= k2 < i && ev[k2].0 == t;
                        let a = choose|a: int| 0 <= a < r_before.len() && r_before[a].0 == ev[k2].0;
                        assert(r@[a] == r_before[a]);
                    }
                }
            }
            i = i + 1;
        }
        proof {
            assert forall|t: DeployOrTransferHash| multiplicity(ev, t) > 1 implies exists|i: int|
                0 <= i < r@.len() && #[trigger] r@[i].0 == t by {
                if !(exists|k: int| 0 <= k < ev.len() && ev[k].0 == t) {
                    lemma_multiplicity_zero(ev, t);
                }
                let k = choose|k: int| 0 <= k < ev.len() && ev[k].0 == t;
                assert(multiplicity(ev, ev[k].0) > 1);
            }
            assert(ev == self@.entries());
            assert forall|a: int, b: int, ka: int, kb: int|
                0 <= a < b < r@.len() && first_listed(ev, r@[a].0, ka) && first_listed(
                    ev,
                    r@[b].0,
                    kb,
                ) implies ka < kb by {
                lemma_first_listed_unique(ev, r@[a].0, ka, firsts[a]);
                lemma_first_listed_unique(ev, r@[b].0, kb, firsts[b]);
            }
        }
        r
    }
}


impl From<FinalizedBlock> for ValidatingBlock {
    fn from(block: FinalizedBlock) -> (r: ValidatingBlock) {
        ValidatingBlock::Block(block)
    }
}

impl vstd::std_specs::convert::FromSpecImpl<FinalizedBlock> for ValidatingBlock {
    open spec fn obeys_from_spec() -> bool {
        true
    }

    open spec fn from_spec(block: FinalizedBlock) -> ValidatingBlock {
        ValidatingBlock::Block(block)
    }
}

impl From<ProposedBlock> for ValidatingBlock {
    fn from(block: ProposedBlock) -> (r: ValidatingBlock) {
        ValidatingBlock::ProposedBlock(block)
    }
}

impl vstd::std_specs::convert::FromSpecImpl<ProposedBlock> for ValidatingBlock {
    open spec fn obeys_from_spec() -> bool {
        true
    }

    open spec fn from_spec(block: ProposedBlock) -> ValidatingBlock {
        ValidatingBlock::ProposedBlock(block)
    }
}

} // verus!
