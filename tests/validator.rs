use block_validator::appendable_block::{AddError, AppendableBlock};

use block_validator::block_validator::{
    fetch_result_event, BlockValidator, Effect, Event, FetchResult, FetchedDeploy,
};
use block_validator::types::{
    Approval, DeployConfig, DeployHash, DeployInfo, DeployOrTransferHash, DeployWithApprovals,
};
use block_validator::validating_block::{FinalizedBlock, ProposedBlock, ValidatingBlock};

const PEER: u64 = 7;

fn rejected(dt_hash: DeployOrTransferHash, reason: AddError) -> Effect {
    Effect::Rejected { block_timestamp: 1000, dt_hash, reason }
}

fn h(n: u8) -> DeployHash {
    DeployHash([n; 32])
}

fn chain() -> Vec<u8> {
    b"casper-example".to_vec()
}

fn config() -> DeployConfig {
    DeployConfig {
        max_block_size_bytes: 1_048_576,
        max_deploy_count: 2,
        max_transfer_count: 2,
        max_gas_limit: 10,
        max_approvals_per_block: 10,
        max_ttl: 3600,
        min_ttl: 60,
        max_dependencies: 10,
    }
}

fn info(size: u64, gas: u64) -> DeployInfo {
    DeployInfo {
        size_bytes: size,
        gas,
        payment_amount: gas,
        timestamp: 900,
        ttl: 600,
        dependency_count: 0,
        chain_name: chain(),
    }
}

fn approvals(n: u64) -> Vec<Approval> {
    vec![Approval { signer: n, signature: n + 100 }]
}

fn finalized(deploys: Vec<DeployHash>, transfers: Vec<DeployHash>) -> ValidatingBlock {
    ValidatingBlock::Block(FinalizedBlock {
        timestamp: 1000,
        deploy_hashes: deploys,
        transfer_hashes: transfers,
    })
}

fn request(block: ValidatingBlock, responder: u64) -> Event {
    Event::Request { block, sender: PEER, responder }
}

fn found(dt: DeployOrTransferHash, size: u64, gas: u64) -> Event {
    Event::DeployFound { dt_hash: dt, approvals: approvals(1), deploy_info: info(size, gas) }
}

fn respond(responder: u64, valid: bool) -> Effect {
    Effect::Respond { responder, valid }
}

fn fetch(dt: DeployOrTransferHash) -> Effect {
    Effect::Fetch { dt_hash: dt, peer: PEER }
}

#[test]
fn empty_block_is_valid_without_fetching() {
    let mut v = BlockValidator::new(config(), chain());
    let effects = v.handle_event(request(finalized(vec![], vec![]), 1));
    assert_eq!(effects, vec![respond(1, true)]);
    assert_eq!(v.pending_count(), 0);
}

#[test]
fn duplicate_within_block_is_invalid_without_fetching() {
    let mut v = BlockValidator::new(config(), chain());
    let effects = v.handle_event(request(finalized(vec![h(1), h(1)], vec![]), 1));
    assert_eq!(effects, vec![respond(1, false)]);
    assert_eq!(v.pending_count(), 0);
    assert_eq!(v.in_flight(&h(1)), 0);
}

#[test]
fn proposed_block_with_conflicting_approvals_is_invalid() {
    let mut v = BlockValidator::new(config(), chain());
    let block = ValidatingBlock::ProposedBlock(ProposedBlock {
        timestamp: 1000,
        deploys: vec![
            DeployWithApprovals { deploy_hash: h(1), approvals: approvals(1) },
            DeployWithApprovals { deploy_hash: h(1), approvals: approvals(2) },
        ],
        transfers: vec![],
    });
    assert_eq!(v.handle_event(request(block, 1)), vec![respond(1, false)]);
}

#[test]
fn happy_path_deploy_and_transfer() {
    let mut v = BlockValidator::new(config(), chain());
    let d1 = DeployOrTransferHash::Deploy(h(1));
    let t2 = DeployOrTransferHash::Transfer(h(2));
    let effects = v.handle_event(request(finalized(vec![h(1)], vec![h(2)]), 1));
    assert_eq!(effects, vec![fetch(d1), fetch(t2)]);
    assert_eq!(v.in_flight(&h(1)), 1);
    assert_eq!(v.in_flight(&h(2)), 1);
    assert_eq!(v.handle_event(found(d1, 100, 1)), vec![]);
    assert_eq!(v.pending_count(), 1);
    assert_eq!(v.handle_event(found(t2, 50, 0)), vec![respond(1, true)]);
    assert_eq!(v.pending_count(), 0);
    assert_eq!(v.in_flight(&h(1)), 0);
    assert_eq!(v.in_flight(&h(2)), 0);
}

#[test]
fn exhausted_fetch_is_invalid() {
    let mut v = BlockValidator::new(config(), chain());
    let d1 = DeployOrTransferHash::Deploy(h(1));
    v.handle_event(request(finalized(vec![h(1)], vec![]), 1));
    assert_eq!(v.handle_event(Event::DeployMissing(d1)), vec![respond(1, false)]);
    assert_eq!(v.pending_count(), 0);
    assert_eq!(v.in_flight(&h(1)), 0);
}

#[test]
fn timeout_with_another_fetch_in_flight_waits() {
    let mut v = BlockValidator::new(config(), chain());
    let d1 = DeployOrTransferHash::Deploy(h(1));
    v.handle_event(request(finalized(vec![h(1)], vec![]), 1));
    v.handle_event(request(finalized(vec![h(1)], vec![]), 2));
    assert_eq!(v.handle_event(Event::DeployMissing(d1)), vec![]);
    assert_eq!(v.pending_count(), 1);
    assert_eq!(v.handle_event(found(d1, 10, 1)), vec![respond(1, true), respond(2, true)]);
}

#[test]
fn unusable_payload_is_invalid_at_once() {
    let mut v = BlockValidator::new(config(), chain());
    let d1 = DeployOrTransferHash::Deploy(h(1));
    v.handle_event(request(finalized(vec![h(1)], vec![]), 1));
    v.handle_event(request(finalized(vec![h(1)], vec![]), 2));
    assert_eq!(
        v.handle_event(Event::CannotConvertDeploy(d1)),
        vec![respond(1, false), respond(2, false)]
    );
    assert_eq!(v.in_flight(&h(1)), 1);
}

#[test]
fn oversize_rejection_on_third_deploy() {
    let mut v = BlockValidator::new(config(), chain());
    let effects = v.handle_event(request(finalized(vec![h(1), h(2), h(3)], vec![]), 1));
    assert_eq!(effects.len(), 3);
    assert_eq!(v.handle_event(found(DeployOrTransferHash::Deploy(h(1)), 10, 1)), vec![]);
    assert_eq!(v.handle_event(found(DeployOrTransferHash::Deploy(h(2)), 10, 1)), vec![]);
    assert_eq!(
        v.handle_event(found(DeployOrTransferHash::Deploy(h(3)), 10, 1)),
        vec![rejected(DeployOrTransferHash::Deploy(h(3)), AddError::DeployCount), respond(1, false)]
    );
    assert_eq!(v.pending_count(), 0);
}

#[test]
fn coalesced_requests_share_one_verdict() {
    let mut v = BlockValidator::new(config(), chain());
    let d1 = DeployOrTransferHash::Deploy(h(1));
    v.handle_event(request(finalized(vec![h(1)], vec![]), 1));
    v.handle_event(request(finalized(vec![h(1)], vec![]), 2));
    assert_eq!(v.pending_count(), 1);
    assert_eq!(v.handle_event(found(d1, 10, 1)), vec![respond(1, true), respond(2, true)]);
    assert_eq!(v.pending_count(), 0);
    // The second fetch of the same hash finds no one waiting.
    assert_eq!(v.handle_event(found(d1, 10, 1)), vec![]);
    assert_eq!(v.in_flight(&h(1)), 0);
}

#[test]
fn rejected_candidate_stays_rejected() {
    let mut v = BlockValidator::new(config(), chain());
    let d1 = DeployOrTransferHash::Deploy(h(1));
    let d2 = DeployOrTransferHash::Deploy(h(2));
    v.handle_event(request(finalized(vec![h(1), h(2)], vec![]), 1));
    let mut bad = info(10, 1);
    bad.ttl = 10;
    let effects = v.handle_event(Event::DeployFound {
        dt_hash: d1,
        approvals: approvals(1),
        deploy_info: bad,
    });
    assert_eq!(effects, vec![rejected(d1, AddError::InvalidTtl), respond(1, false)]);
    assert_eq!(v.handle_event(found(d2, 10, 1)), vec![]);
    assert_eq!(v.pending_count(), 0);
}

#[test]
fn distinct_candidates_sharing_a_hash() {
    let mut v = BlockValidator::new(config(), chain());
    let d1 = DeployOrTransferHash::Deploy(h(1));
    v.handle_event(request(finalized(vec![h(1)], vec![]), 1));
    v.handle_event(request(finalized(vec![h(1), h(2)], vec![]), 2));
    assert_eq!(v.pending_count(), 2);
    assert_eq!(v.in_flight(&h(1)), 2);
    assert_eq!(v.handle_event(found(d1, 10, 1)), vec![respond(1, true)]);
    assert_eq!(v.pending_count(), 1);
}

#[test]
fn fetch_results_map_to_events() {
    let d1 = DeployOrTransferHash::Deploy(h(1));
    let payload = FetchedDeploy { dt_hash: d1, approvals: approvals(3), deploy_info: Some(info(1, 1)) };
    match fetch_result_event(d1, FetchResult::FromPeer(payload, PEER)) {
        Event::DeployFound { dt_hash, approvals: a, deploy_info } => {
            assert_eq!(dt_hash, d1);
            assert_eq!(a, approvals(3));
            assert_eq!(deploy_info.size_bytes, 1);
        }
        other => panic!("unexpected {:?}", other),
    }
    let wrong_role = FetchedDeploy {
        dt_hash: DeployOrTransferHash::Transfer(h(1)),
        approvals: approvals(3),
        deploy_info: Some(info(1, 1)),
    };
    assert!(matches!(
        fetch_result_event(d1, FetchResult::FromStorage(wrong_role)),
        Event::CannotConvertDeploy(x) if x == d1
    ));
    let no_info = FetchedDeploy { dt_hash: d1, approvals: vec![], deploy_info: None };
    assert!(matches!(
        fetch_result_event(d1, FetchResult::FromStorage(no_info)),
        Event::CannotConvertDeploy(_)
    ));
    assert!(matches!(fetch_result_event(d1, FetchResult::Absent), Event::DeployMissing(x) if x == d1));
}

#[test]
fn validating_block_views() {
    let b = ValidatingBlock::ProposedBlock(ProposedBlock {
        timestamp: 42,
        deploys: vec![DeployWithApprovals { deploy_hash: h(1), approvals: approvals(1) }],
        transfers: vec![DeployWithApprovals { deploy_hash: h(2), approvals: approvals(2) }],
    });
    assert_eq!(b.timestamp(), 42);
    assert_eq!(b.deploy_hashes(), vec![h(1)]);
    assert_eq!(b.transfer_hashes(), vec![h(2)]);
    let entries = b.deploys_and_transfers_iter();
    assert_eq!(entries.len(), 2);
    assert_eq!(entries[0].0, DeployOrTransferHash::Deploy(h(1)));
    assert_eq!(entries[0].1, Some(approvals(1)));
    assert_eq!(entries[1].0, DeployOrTransferHash::Transfer(h(2)));
    let f = finalized(vec![h(1)], vec![h(2)]);
    let fe = f.deploys_and_transfers_iter();
    assert_eq!(fe[1], (DeployOrTransferHash::Transfer(h(2)), None));
    assert!(!b.same_block(&f));
    assert!(f.same_block(&finalized(vec![h(1)], vec![h(2)])));
    assert!(!f.same_block(&finalized(vec![h(2)], vec![h(1)])));
}

fn appendable() -> AppendableBlock {
    AppendableBlock::new(config(), 1000, &chain())
}

fn dwa(n: u8) -> DeployWithApprovals {
    DeployWithApprovals { deploy_hash: h(n), approvals: approvals(n as u64) }
}

#[test]
fn appendable_block_rejections() {
    let mut b = appendable();
    assert_eq!(b.add_deploy(dwa(1), &info(10, 1)), Ok(()));
    assert_eq!(b.add_transfer(dwa(1), &info(10, 1)), Err(AddError::Duplicate));
    let mut i = info(10, 1);
    i.ttl = 59;
    assert_eq!(b.add_deploy(dwa(2), &i), Err(AddError::InvalidTtl));
    i.ttl = 3601;
    assert_eq!(b.add_deploy(dwa(2), &i), Err(AddError::InvalidTtl));
    let mut i = info(10, 1);
    i.timestamp = 1001;
    assert_eq!(b.add_deploy(dwa(2), &i), Err(AddError::TimestampOutOfRange));
    i.timestamp = 399;
    assert_eq!(b.add_deploy(dwa(2), &i), Err(AddError::TimestampOutOfRange));
    let mut i = info(10, 1);
    i.dependency_count = 11;
    assert_eq!(b.add_deploy(dwa(2), &i), Err(AddError::ExcessiveDependencies));
    let mut i = info(10, 1);
    i.chain_name = b"other".to_vec();
    assert_eq!(b.add_deploy(dwa(2), &i), Err(AddError::ChainNameMismatch));
    assert_eq!(b.add_deploy(dwa(2), &info(10, 11)), Err(AddError::GasLimit));
    assert_eq!(b.add_deploy(dwa(2), &info(1_048_567, 1)), Err(AddError::BlockSize));
    assert_eq!(b.add_deploy(dwa(2), &info(1_048_566, 9)), Ok(()));
    assert_eq!(b.add_deploy(dwa(3), &info(0, 0)), Err(AddError::DeployCount));
}

#[test]
fn appendable_block_transfer_and_approval_caps() {
    let mut b = appendable();
    let many = DeployWithApprovals {
        deploy_hash: h(9),
        approvals: (0..11).map(|n| Approval { signer: n, signature: n }).collect(),
    };
    assert_eq!(b.add_transfer(many, &info(0, 0)), Err(AddError::ApprovalCount));
    assert_eq!(b.add_transfer(dwa(1), &info(0, 0)), Ok(()));
    assert_eq!(b.add_transfer(dwa(2), &info(0, 0)), Ok(()));
    assert_eq!(b.add_transfer(dwa(3), &info(0, 0)), Err(AddError::TransferCount));
    assert_eq!(b.add_deploy(dwa(3), &info(0, 0)), Ok(()));
    assert_eq!(b.timestamp(), 1000);
}

#[test]
fn timestamp_bounds_are_inclusive() {
    let mut b = appendable();
    let mut i = info(1, 1);
    i.timestamp = 1000;
    assert_eq!(b.add_deploy(dwa(1), &i), Ok(()));
    i.timestamp = 400;
    assert_eq!(b.add_deploy(dwa(2), &i), Ok(()));
}

#[test]
fn duplicates_are_counted_for_the_log() {
    let b = finalized(vec![h(1), h(2), h(1)], vec![h(1), h(3), h(3), h(3)]);
    assert_eq!(
        b.duplicates(),
        vec![
            (DeployOrTransferHash::Deploy(h(1)), 2),
            (DeployOrTransferHash::Transfer(h(3)), 3)
        ]
    );
    assert_eq!(finalized(vec![h(1)], vec![h(1)]).duplicates(), vec![]);
}

#[test]
fn candidates_convert_from_both_kinds_of_block() {
    let f = FinalizedBlock { timestamp: 5, deploy_hashes: vec![h(1)], transfer_hashes: vec![] };
    let b = ValidatingBlock::from(f);
    assert_eq!(b.timestamp(), 5);
    let p = ProposedBlock { timestamp: 6, deploys: vec![], transfers: vec![dwa(2)] };
    let b = ValidatingBlock::from(p);
    assert_eq!(b.transfer_hashes(), vec![h(2)]);
    assert_eq!(b.deploys_and_transfers_iter()[0].1, Some(approvals(2)));
}

#[test]
fn authoritative_approvals_win() {
    let mut v = BlockValidator::new(config(), chain());
    let d1 = DeployOrTransferHash::Deploy(h(1));
    let block = ValidatingBlock::ProposedBlock(ProposedBlock {
        timestamp: 1000,
        deploys: vec![DeployWithApprovals { deploy_hash: h(1), approvals: approvals(1) }],
        transfers: vec![],
    });
    v.handle_event(request(block, 1));
    let too_many: Vec<Approval> = (0..11).map(|n| Approval { signer: n, signature: n }).collect();
    let effects = v.handle_event(Event::DeployFound {
        dt_hash: d1,
        approvals: too_many.clone(),
        deploy_info: info(10, 1),
    });
    assert_eq!(effects, vec![respond(1, true)]);

    v.handle_event(request(finalized(vec![h(1)], vec![]), 2));
    let effects = v.handle_event(Event::DeployFound {
        dt_hash: d1,
        approvals: too_many,
        deploy_info: info(10, 1),
    });
    assert_eq!(effects, vec![rejected(d1, AddError::ApprovalCount), respond(2, false)]);
}

#[test]
fn same_hash_in_both_roles() {
    let mut v = BlockValidator::new(config(), chain());
    let d1 = DeployOrTransferHash::Deploy(h(1));
    let t1 = DeployOrTransferHash::Transfer(h(1));
    let effects = v.handle_event(request(finalized(vec![h(1)], vec![h(1)]), 1));
    assert_eq!(effects, vec![fetch(d1), fetch(t1)]);
    assert_eq!(v.in_flight(&h(1)), 2);
    assert_eq!(v.handle_event(found(d1, 10, 1)), vec![]);
    assert_eq!(
        v.handle_event(found(t1, 10, 1)),
        vec![rejected(t1, AddError::Duplicate), respond(1, false)]
    );
    assert_eq!(v.in_flight(&h(1)), 0);
}
