//! The signing pipeline: validate, canonicalize, consult the double-sign
//! guard, sign, commit the new high-water-mark durably, and attach the
//! signature — with the guard left untouched on every rejection path.

use vstd::prelude::*;

use crate::guard::permitted;
use crate::guard::proposal_slot;
use crate::guard::serialize_hwm;
use crate::guard::slot_of;
use crate::guard::Decision;
use crate::guard::DoubleSignGuard;
use crate::guard::PersistenceError;
use crate::keyring::KeyRing;
use crate::keyring::SigningError;
use crate::keyring::SigningProvider;
use crate::proposal::SignProposalRequest;
use crate::validate::request_fault;
use crate::validate::ValidationError;

verus! {

/// Where a durable image of each chain's high-water-mark lives. The store
/// is outside work — a file, a database — so nothing is promised of it; the
/// pipeline treats a reported failure as fatal for the request.
pub trait HwmStore {
    /// Durably replaces the record held for `chain_id` with `record`,
    /// atomically with respect to a crash.
    fn persist(&mut self, chain_id: &Vec<u8>, record: &Vec<u8>) -> Result<(), PersistenceError>;
}

/// How one signing request ended.
#[derive(Clone, Copy, PartialEq, Eq, Structural, Debug)]
pub enum SigningOutcome {
    /// The signature was produced, committed and attached.
    Signed,
    /// The request failed structural validation; nothing was attempted.
    RejectedInvalid(ValidationError),
    /// Signing this slot would repeat or rewind an approved slot; the
    /// message is returned unsigned.
    RejectedDoubleSign,
    /// The registry or provider failed; the slot stays available for a
    /// retry.
    RejectedProviderError(SigningError),
    /// A signature was produced but the new mark could not be made durable;
    /// the signature is discarded and the request fails.
    FailedCommit(PersistenceError),
}

/// Runs one signing request through the pipeline.
///
/// For a single chain the call sequence from guard check to commit must not
/// interleave with another request for that chain; callers serialize
/// requests per chain identifier.
pub fn sign_proposal_request<P: SigningProvider, S: HwmStore>(
    req: &mut SignProposalRequest,
    chain_id: &Vec<u8>,
    guard: &mut DoubleSignGuard,
    store: &mut S,
    keyring: &KeyRing<P>,
    key_id: Option<&Vec<u8>>,
) -> (outcome: SigningOutcome)
    ensures
        match request_fault(*old(req)) {
            Some(e) => outcome == SigningOutcome::RejectedInvalid(e) && *final(req) == *old(req)
                && *final(guard) == *old(guard),
            None => {
                let slot = slot_of(old(req).proposal->Some_0);
                if !permitted(old(guard).hwm_of(chain_id@), slot) {
                    outcome == SigningOutcome::RejectedDoubleSign && *final(req) == *old(req)
                        && *final(guard) == *old(guard)
                } else {
                    match outcome {
                        SigningOutcome::Signed => final(guard).hwm_of(chain_id@) == Some(slot)
                            && (forall|k: Seq<u8>|
                            k != chain_id@ ==> final(guard).hwm_of(k) == old(guard).hwm_of(k))
                            && (final(req).proposal matches Some(p) && {
                            let p0 = old(req).proposal->Some_0;
                            p.msg_type == p0.msg_type && p.height == p0.height && p.round
                                == p0.round && p.pol_round == p0.pol_round && p.block_id
                                == p0.block_id && p.timestamp == p0.timestamp
                        }),
                        SigningOutcome::RejectedProviderError(_) => *final(req) == *old(req)
                            && *final(guard) == *old(guard),
                        SigningOutcome::FailedCommit(_) => *final(req) == *old(req)
                            && *final(guard) == *old(guard),
                        _ => false,
                    }
                }
            },
        },
{
    match req.validate() {
        Err(e) => {
            return SigningOutcome::RejectedInvalid(e);
        },
        Ok(()) => {},
    }
    let slot = match &req.proposal {
        Some(p) => proposal_slot(p),
        None => vstd::pervasive::unreached(),
    };
    match guard.check_and_reserve(chain_id, &slot) {
        Decision::Reject => {
            return SigningOutcome::RejectedDoubleSign;
        },
        Decision::Approve => {},
    }
    let mut to_sign: Vec<u8> = Vec::new();
    req.sign_bytes(chain_id, &mut to_sign);
    let sig = match keyring.sign(key_id, &to_sign) {
        Ok(sig) => sig,
        Err(e) => {
            return SigningOutcome::RejectedProviderError(e);
        },
    };
    let record = serialize_hwm(&slot);
    match store.persist(chain_id, &record) {
        Err(e) => {
            return SigningOutcome::FailedCommit(e);
        },
        Ok(()) => {},
    }
    guard.commit(chain_id, &slot);
    req.set_signature(&sig);
    SigningOutcome::Signed
}

} // verus!
