//! Structural validation of inbound signing requests, applied before any
//! canonicalization or signing work.

use vstd::prelude::*;

use crate::proposal::Proposal;
use crate::proposal::SignProposalRequest;
use crate::proposal::SignedMsgType;

verus! {

/// Why a message was refused before signing was attempted.
#[derive(Clone, Copy, PartialEq, Eq, Structural, Debug)]
pub enum ValidationError {
    /// The message kind is not one a proposal request may carry.
    InvalidMessageType,
    /// The block height is negative.
    NegativeHeight,
    /// The consensus round is negative.
    NegativeRound,
    /// The proof-of-lock round is below `-1`.
    NegativePolRound,
    /// The request carries no consensus message at all.
    MissingConsensusMessage,
}

/// Whether a proposal is structurally fit for signing.
pub open spec fn valid_proposal(p: Proposal) -> bool {
    p.msg_type == SignedMsgType::Proposal.as_u32() && p.height >= 0 && p.round >= 0
        && p.pol_round >= -1
}

/// The first check a proposal fails, in the fixed order: message kind,
/// height, round, proof-of-lock round.
pub open spec fn proposal_fault(p: Proposal) -> Option<ValidationError> {
    if p.msg_type != SignedMsgType::Proposal.as_u32() {
        Some(ValidationError::InvalidMessageType)
    } else if p.height < 0 {
        Some(ValidationError::NegativeHeight)
    } else if p.round < 0 {
        Some(ValidationError::NegativeRound)
    } else if p.pol_round < -1 {
        Some(ValidationError::NegativePolRound)
    } else {
        None
    }
}

/// The first check a request fails: a missing proposal, else the carried
/// proposal's first fault.
pub open spec fn request_fault(r: SignProposalRequest) -> Option<ValidationError> {
    match r.proposal {
        None => Some(ValidationError::MissingConsensusMessage),
        Some(p) => proposal_fault(p),
    }
}

impl Proposal {
    /// Checks the structural rules for a proposal, reporting the first
    /// failed check; a proposal passes exactly when it is valid.
    pub fn validate_basic(&self) -> (r: Result<(), ValidationError>)
        ensures
            match r {
                Ok(()) => proposal_fault(*self) is None && valid_proposal(*self),
                Err(e) => proposal_fault(*self) == Some(e),
            },
    {
        if self.msg_type != SignedMsgType::Proposal.to_u32() {
            return Err(ValidationError::InvalidMessageType);
        }
        if self.height < 0 {
            return Err(ValidationError::NegativeHeight);
        }
        if self.round < 0 {
            return Err(ValidationError::NegativeRound);
        }
        if self.pol_round < -1 {
            return Err(ValidationError::NegativePolRound);
        }
        Ok(())
    }
}

impl SignProposalRequest {
    /// Checks the structural rules for a request, reporting the first failed
    /// check; a request passes exactly when it carries a valid proposal.
    pub fn validate(&self) -> (r: Result<(), ValidationError>)
        ensures
            match r {
                Ok(()) => self.proposal matches Some(p) && valid_proposal(p) && request_fault(
                    *self,
                ) is None,
                Err(e) => request_fault(*self) == Some(e),
            },
    {
        match &self.proposal {
            Some(p) => p.validate_basic(),
            None => Err(ValidationError::MissingConsensusMessage),
        }
    }
}

} // verus!
