//! Pipeline tests: the full signing flow, each rejection path, the provider
//! failure scenario, and the commit failure path.

use tmkms::guard::Decision;
use tmkms::guard::DoubleSignGuard;
use tmkms::guard::HighWaterMark;
use tmkms::guard::PersistenceError;
use tmkms::keyring::KeyRing;
use tmkms::keyring::ProviderError;
use tmkms::keyring::Signer;
use tmkms::keyring::SigningError;
use tmkms::keyring::SigningProvider;
use tmkms::pipeline::sign_proposal_request;
use tmkms::pipeline::HwmStore;
use tmkms::pipeline::SigningOutcome;
use tmkms::proposal::Proposal;
use tmkms::proposal::SignProposalRequest;
use tmkms::validate::ValidationError;

/// A software stand-in for a key-custody backend: echoes a fixed signature.
struct FixedProvider {
    sig: Vec<u8>,
}

impl SigningProvider for FixedProvider {
    fn public_key(&self) -> Result<Vec<u8>, ProviderError> {
        Ok(vec![1u8; 32])
    }
    fn sign(&self, _msg: &Vec<u8>) -> Result<Vec<u8>, ProviderError> {
        Ok(self.sig.clone())
    }
}

/// A backend whose device cannot be reached.
struct DownProvider;

impl SigningProvider for DownProvider {
    fn public_key(&self) -> Result<Vec<u8>, ProviderError> {
        Err(ProviderError::ProviderUnavailable)
    }
    fn sign(&self, _msg: &Vec<u8>) -> Result<Vec<u8>, ProviderError> {
        Err(ProviderError::ProviderUnavailable)
    }
}

/// An in-memory durable store recording the last record per chain.
struct MemStore {
    records: Vec<(Vec<u8>, Vec<u8>)>,
}

impl HwmStore for MemStore {
    fn persist(&mut self, chain_id: &Vec<u8>, record: &Vec<u8>) -> Result<(), PersistenceError> {
        self.records.push((chain_id.clone(), record.clone()));
        Ok(())
    }
}

/// A durable store whose writes fail.
struct BrokenStore;

impl HwmStore for BrokenStore {
    fn persist(&mut self, _chain_id: &Vec<u8>, _record: &Vec<u8>) -> Result<(), PersistenceError> {
        Err(PersistenceError::CommitFailed)
    }
}

fn proposal(height: i64, round: i64) -> Proposal {
    Proposal {
        msg_type: 0x20,
        height,
        round,
        pol_round: -1,
        block_id: None,
        timestamp: None,
        signature: vec![],
    }
}

fn ring_with_fixed(sig: Vec<u8>) -> KeyRing<FixedProvider> {
    let mut ring = KeyRing::new();
    ring.add(
        vec![1u8; 32],
        Signer::new(b"softsign".to_vec(), b"default".to_vec(), FixedProvider { sig }),
    )
    .unwrap();
    ring
}

#[test]
fn full_flow_signs_commits_and_attaches() {
    let chain = b"chain-a".to_vec();
    let mut guard = DoubleSignGuard::new();
    let mut store = MemStore { records: vec![] };
    let ring = ring_with_fixed(vec![7u8; 64]);

    let mut req = SignProposalRequest {
        proposal: Some(proposal(10, 0)),
    };
    let outcome = sign_proposal_request(&mut req, &chain, &mut guard, &mut store, &ring, None);
    assert_eq!(outcome, SigningOutcome::Signed);
    assert_eq!(req.proposal.as_ref().unwrap().signature, vec![7u8; 64]);
    assert_eq!(req.proposal.as_ref().unwrap().height, 10);
    assert_eq!(
        store.records,
        vec![(chain.clone(), b"10/0/-1/32".to_vec())]
    );

    // Replaying the identical slot is refused, the message stays unsigned.
    let mut replay = SignProposalRequest {
        proposal: Some(proposal(10, 0)),
    };
    let outcome =
        sign_proposal_request(&mut replay, &chain, &mut guard, &mut store, &ring, None);
    assert_eq!(outcome, SigningOutcome::RejectedDoubleSign);
    assert!(replay.proposal.as_ref().unwrap().signature.is_empty());
    assert_eq!(store.records.len(), 1);

    // A strictly later slot is approved.
    let mut next = SignProposalRequest {
        proposal: Some(proposal(10, 1)),
    };
    let outcome = sign_proposal_request(&mut next, &chain, &mut guard, &mut store, &ring, None);
    assert_eq!(outcome, SigningOutcome::Signed);
    assert_eq!(store.records.len(), 2);
}

#[test]
fn invalid_requests_are_rejected_without_touching_state() {
    let chain = b"chain-a".to_vec();
    let mut guard = DoubleSignGuard::new();
    let mut store = MemStore { records: vec![] };
    let ring = ring_with_fixed(vec![7u8; 64]);

    let cases = vec![
        (SignProposalRequest { proposal: None }, ValidationError::MissingConsensusMessage),
        (
            SignProposalRequest {
                proposal: Some(Proposal {
                    msg_type: 0x01,
                    ..proposal(1, 0)
                }),
            },
            ValidationError::InvalidMessageType,
        ),
        (
            SignProposalRequest {
                proposal: Some(proposal(-1, 0)),
            },
            ValidationError::NegativeHeight,
        ),
        (
            SignProposalRequest {
                proposal: Some(proposal(1, -2)),
            },
            ValidationError::NegativeRound,
        ),
        (
            SignProposalRequest {
                proposal: Some(Proposal {
                    pol_round: -2,
                    ..proposal(1, 0)
                }),
            },
            ValidationError::NegativePolRound,
        ),
    ];
    for (mut req, want) in cases {
        let outcome =
            sign_proposal_request(&mut req, &chain, &mut guard, &mut store, &ring, None);
        assert_eq!(outcome, SigningOutcome::RejectedInvalid(want));
    }
    assert!(store.records.is_empty());

    // The guard saw no commit: the first real slot is still approvable.
    assert_eq!(
        guard.check_and_reserve(
            &chain,
            &HighWaterMark {
                height: 0,
                round: 0,
                pol_round: 0,
                msg_type: 1
            }
        ),
        Decision::Approve
    );
}

#[test]
fn provider_failure_leaves_the_slot_available() {
    let chain = b"chain-a".to_vec();
    let mut guard = DoubleSignGuard::new();
    let mut store = MemStore { records: vec![] };

    let mut down_ring: KeyRing<DownProvider> = KeyRing::new();
    down_ring
        .add(
            vec![2u8; 32],
            Signer::new(b"ledgertm".to_vec(), b"ledgertm".to_vec(), DownProvider),
        )
        .unwrap();

    // The guard approves, then the provider fails: the high-water-mark must
    // remain unchanged and nothing durable is written.
    let mut req = SignProposalRequest {
        proposal: Some(proposal(3, 0)),
    };
    let outcome =
        sign_proposal_request(&mut req, &chain, &mut guard, &mut store, &down_ring, None);
    assert_eq!(
        outcome,
        SigningOutcome::RejectedProviderError(SigningError::Provider(
            ProviderError::ProviderUnavailable
        ))
    );
    assert!(req.proposal.as_ref().unwrap().signature.is_empty());
    assert!(store.records.is_empty());

    // A retry for the identical slot against a healthy provider is approved.
    let ring = ring_with_fixed(vec![9u8; 64]);
    let outcome = sign_proposal_request(&mut req, &chain, &mut guard, &mut store, &ring, None);
    assert_eq!(outcome, SigningOutcome::Signed);
    assert_eq!(req.proposal.as_ref().unwrap().signature, vec![9u8; 64]);
}

#[test]
fn commit_failure_discards_the_signature() {
    let chain = b"chain-a".to_vec();
    let mut guard = DoubleSignGuard::new();
    let mut store = BrokenStore;
    let ring = ring_with_fixed(vec![7u8; 64]);

    let mut req = SignProposalRequest {
        proposal: Some(proposal(4, 0)),
    };
    let outcome = sign_proposal_request(&mut req, &chain, &mut guard, &mut store, &ring, None);
    assert_eq!(
        outcome,
        SigningOutcome::FailedCommit(PersistenceError::CommitFailed)
    );
    // The signature was never attached, and the in-memory mark did not
    // advance past the durable one.
    assert!(req.proposal.as_ref().unwrap().signature.is_empty());
    let slot = HighWaterMark {
        height: 4,
        round: 0,
        pol_round: -1,
        msg_type: 0x20,
    };
    assert_eq!(guard.check_and_reserve(&chain, &slot), Decision::Approve);
}

#[test]
fn key_resolution_errors_reach_the_caller() {
    let chain = b"chain-a".to_vec();
    let mut guard = DoubleSignGuard::new();
    let mut store = MemStore { records: vec![] };

    let empty: KeyRing<FixedProvider> = KeyRing::new();
    let mut req = SignProposalRequest {
        proposal: Some(proposal(5, 0)),
    };
    let outcome = sign_proposal_request(&mut req, &chain, &mut guard, &mut store, &empty, None);
    assert_eq!(
        outcome,
        SigningOutcome::RejectedProviderError(SigningError::KeyNotFound)
    );
}
