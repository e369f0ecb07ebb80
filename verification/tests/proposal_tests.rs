//! Wire-format tests: the published golden vector, decoding, the canonical
//! sign bytes, and signature attachment.

use tmkms::proposal::BlockId;
use tmkms::proposal::PartsSetHeader;
use tmkms::proposal::Proposal;
use tmkms::proposal::SignProposalRequest;
use tmkms::proposal::SignedMsgType;
use tmkms::proposal::TimeMsg;

// 2018-02-11T07:09:22.765Z as seconds and nanoseconds since the Unix epoch.
const STAMP_SECONDS: i64 = 1_518_332_962;
const STAMP_NANOS: i32 = 765_000_000;

fn example_proposal() -> Proposal {
    let t = TimeMsg {
        seconds: STAMP_SECONDS,
        nanos: STAMP_NANOS,
    };
    Proposal {
        msg_type: SignedMsgType::Proposal.to_u32(),
        height: 12345,
        round: 23456,
        pol_round: -1,
        block_id: Some(BlockId {
            hash: "hash".as_bytes().to_vec(),
            parts_header: Some(PartsSetHeader {
                total: 1000000,
                hash: "parts_hash".as_bytes().to_vec(),
            }),
        }),
        timestamp: Some(t),
        signature: vec![],
    }
}

fn golden_request_bytes() -> Vec<u8> {
    vec![
        66, // len
        189, 228, 152, 226, // prefix
        10, 60, 8, 32, 16, 185, 96, 24, 160, 183, 1, 32, 255, 255, 255, 255, 255, 255, 255, 255,
        255, 1, 42, 24, 10, 4, 104, 97, 115, 104, 18, 16, 8, 192, 132, 61, 18, 10, 112, 97, 114,
        116, 115, 95, 104, 97, 115, 104, 50, 12, 8, 162, 216, 255, 211, 5, 16, 192, 242, 227, 236,
        2,
    ]
}

#[test]
fn test_serialization() {
    let proposal = example_proposal();
    let mut got = vec![];
    SignProposalRequest {
        proposal: Some(proposal),
    }
    .encode(&mut got);
    let want = golden_request_bytes();
    assert_eq!(got, want)
}

#[test]
fn test_deserialization() {
    let proposal = example_proposal();
    let want = SignProposalRequest {
        proposal: Some(proposal),
    };
    let data = golden_request_bytes();
    match SignProposalRequest::decode(&data) {
        Ok(have) => assert_eq!(have, want),
        Err(_) => assert!(false),
    }
}

#[test]
fn encode_then_decode_round_trips() {
    let req = SignProposalRequest {
        proposal: Some(example_proposal()),
    };
    let mut encoded = vec![];
    req.encode(&mut encoded);
    let back = SignProposalRequest::decode(&encoded).unwrap();
    assert_eq!(back, req);
}

#[test]
fn encode_then_decode_round_trips_sparse() {
    // All optional parts absent, all integers at their defaults.
    let req = SignProposalRequest {
        proposal: Some(Proposal {
            msg_type: 0,
            height: 0,
            round: 0,
            pol_round: 0,
            block_id: None,
            timestamp: None,
            signature: vec![],
        }),
    };
    let mut encoded = vec![];
    req.encode(&mut encoded);
    assert_eq!(encoded, vec![6, 189, 228, 152, 226, 10, 0]);
    let back = SignProposalRequest::decode(&encoded).unwrap();
    assert_eq!(back, req);

    let empty = SignProposalRequest { proposal: None };
    let mut encoded = vec![];
    empty.encode(&mut encoded);
    assert_eq!(encoded, vec![4, 189, 228, 152, 226]);
    let back = SignProposalRequest::decode(&encoded).unwrap();
    assert_eq!(back, empty);
}

#[test]
fn decode_rejects_malformed_input() {
    assert!(SignProposalRequest::decode(&vec![]).is_err());
    assert!(SignProposalRequest::decode(&vec![66, 189, 228, 152]).is_err());
    // Wrong registration prefix.
    assert!(SignProposalRequest::decode(&vec![4, 189, 228, 152, 227]).is_err());
    // Length byte does not match the remainder.
    let mut data = golden_request_bytes();
    data[0] = 65;
    assert!(SignProposalRequest::decode(&data).is_err());
    // Trailing garbage.
    let mut data = golden_request_bytes();
    data.push(0);
    assert!(SignProposalRequest::decode(&data).is_err());
}

#[test]
fn sign_bytes_matches_expected_canonical_form() {
    let req = SignProposalRequest {
        proposal: Some(example_proposal()),
    };
    let chain_id = "test_chain_id".as_bytes().to_vec();
    let mut got = vec![];
    req.sign_bytes(&chain_id, &mut got);
    let want = vec![
        84, // len
        8, 32, // msg type
        17, 57, 48, 0, 0, 0, 0, 0, 0, // height, fixed width
        25, 160, 91, 0, 0, 0, 0, 0, 0, // round, fixed width
        33, 255, 255, 255, 255, 255, 255, 255, 255, // pol round, fixed width
        42, 24, 10, 4, 104, 97, 115, 104, 18, 16, 10, 10, 112, 97, 114, 116, 115, 95, 104, 97,
        115, 104, 16, 192, 132, 61, // canonical block id
        50, 12, 8, 162, 216, 255, 211, 5, 16, 192, 242, 227, 236, 2, // timestamp
        58, 13, 116, 101, 115, 116, 95, 99, 104, 97, 105, 110, 95, 105, 100, // chain id
    ];
    assert_eq!(got, want);
}

#[test]
fn sign_bytes_strips_signature_and_pins_msg_type() {
    let chain_id = "test_chain_id".as_bytes().to_vec();
    let mut plain = vec![];
    SignProposalRequest {
        proposal: Some(example_proposal()),
    }
    .sign_bytes(&chain_id, &mut plain);

    // A stale signature and a different message kind must not change what is
    // signed: the canonical form strips one and pins the other.
    let mut altered = example_proposal();
    altered.signature = vec![9, 9, 9];
    let mut got = vec![];
    SignProposalRequest {
        proposal: Some(altered),
    }
    .sign_bytes(&chain_id, &mut got);
    assert_eq!(got, plain);
}

#[test]
fn set_signature_fills_the_slot() {
    let mut req = SignProposalRequest {
        proposal: Some(example_proposal()),
    };
    let sig = vec![7u8; 64];
    req.set_signature(&sig);
    assert_eq!(req.proposal.as_ref().unwrap().signature, sig);
    assert_eq!(req.proposal.as_ref().unwrap().height, 12345);

    let mut empty = SignProposalRequest { proposal: None };
    empty.set_signature(&sig);
    assert!(empty.proposal.is_none());
}

#[test]
fn parse_block_height_rejects_negative() {
    let mut p = example_proposal();
    assert_eq!(p.parse_block_height(), Some(12345));
    p.height = -1;
    assert_eq!(p.parse_block_height(), None);
}
