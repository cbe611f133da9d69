use axon_core::consensus::{
    verify_block_header, verify_proof, verify_proof_signature, verify_proof_weight, BlockHeaderField,
    BlockProofField, ConsensusError, Metadata, MetadataVersion, Proof, Proposal, Validator,
};
use axon_core::types::H256;

fn validator(key: u8, weight: u32) -> Validator {
    Validator { pub_key: vec![key], bls_pub_key: vec![0xb0 + key], propose_weight: 1, vote_weight: weight }
}

fn metadata(list: Vec<Validator>) -> Metadata {
    Metadata {
        version: MetadataVersion { start: 0, end: 100 },
        verifier_list: list,
        consensus_interval: 3000,
        propose_ratio: 15,
        prevote_ratio: 10,
        precommit_ratio: 10,
        brake_ratio: 10,
        gas_limit: 1_000_000,
        max_tx_size: 1024,
    }
}

fn mock_proof(number: u64, bitmap: Vec<u8>) -> Proof {
    Proof { number, round: 0, block_hash: H256::new([0x11; 32]), signature: vec![9, 9], bitmap }
}

fn proposal(number: u64, prev: H256) -> Proposal {
    Proposal {
        number,
        prev_hash: prev,
        state_root: H256::new([0; 32]),
        timestamp: 0,
        gas_limit: 0,
        tx_hashes: vec![],
    }
}

#[test]
fn header_links_to_parent() {
    let h6 = H256::new([6; 32]);
    let p = proposal(7, h6);
    assert_eq!(p.parent_number(), Some(6));
    assert!(verify_block_header(&p, Some(h6)).is_ok());
    let mut bytes = [6u8; 32];
    bytes[31] = 7;
    assert!(matches!(
        verify_block_header(&p, Some(H256::new(bytes))),
        Err(ConsensusError::VerifyBlockHeader(7, BlockHeaderField::PreviousBlockHash))
    ));
    assert!(matches!(verify_block_header(&p, None), Err(ConsensusError::StorageItemNotFound)));
    assert_eq!(proposal(0, h6).parent_number(), None);
}

#[test]
fn genesis_needs_no_proof() {
    let m = metadata(vec![validator(1, 1)]);
    let r = verify_proof(0, &mock_proof(5, vec![]), &H256::new([0; 32]), &m);
    assert!(matches!(r, Ok(None)));
}

#[test]
fn exactly_two_thirds_is_not_enough() {
    // Keys listed out of order: the bitmap selects over the sorted list [1, 2, 3].
    let m = metadata(vec![validator(3, 1), validator(1, 1), validator(2, 1)]);
    let hash = H256::new([0x11; 32]);
    let r = verify_proof(7, &mock_proof(7, vec![0b1100_0000]), &hash, &m);
    assert!(matches!(r, Err(ConsensusError::VerifyProof(7, BlockProofField::Weight))));

    let r = verify_proof(7, &mock_proof(7, vec![0b1110_0000]), &hash, &m).unwrap().unwrap();
    assert_eq!(r.bls_pub_keys, vec![vec![0xb3], vec![0xb1], vec![0xb2]]);
    assert_eq!(r.signature, vec![9, 9]);
    assert!(verify_proof_signature(7, true).is_ok());
    assert!(matches!(
        verify_proof_signature(7, false),
        Err(ConsensusError::VerifyProof(7, BlockProofField::Signature))
    ));
}

#[test]
fn bitmap_selects_over_sorted_keys() {
    let m = metadata(vec![validator(3, 5), validator(1, 1), validator(2, 1)]);
    let hash = H256::new([0x11; 32]);
    // third bit: key 3, weight 5 of 7
    let r = verify_proof(7, &mock_proof(7, vec![0b0010_0000]), &hash, &m).unwrap().unwrap();
    assert_eq!(r.bls_pub_keys, vec![vec![0xb3]]);
    // first two bits: keys 1 and 2, weight 2 of 7
    let r = verify_proof(7, &mock_proof(7, vec![0b1100_0000]), &hash, &m);
    assert!(matches!(r, Err(ConsensusError::VerifyProof(7, BlockProofField::Weight))));
}

#[test]
fn vote_message_is_rlp_of_precommit() {
    let m = metadata(vec![validator(1, 1)]);
    let hash = H256::new([0x11; 32]);
    let r = verify_proof(7, &mock_proof(7, vec![0b1000_0000]), &hash, &m).unwrap().unwrap();
    let mut expected = vec![0xe4, 0x07, 0x80, 0x02, 0xa0];
    expected.extend_from_slice(&[0x11; 32]);
    assert_eq!(r.vote_message, expected);
}

#[test]
fn vote_message_encodes_long_numbers() {
    let m = Metadata { version: MetadataVersion { start: 0, end: 1000 }, ..metadata(vec![validator(1, 1)]) };
    let hash = H256::new([0x11; 32]);
    let p = Proof { number: 300, round: 200, block_hash: hash, signature: vec![], bitmap: vec![0x80] };
    let r = verify_proof(300, &p, &hash, &m).unwrap().unwrap();
    let mut expected = vec![0xc0 + 39, 0x82, 0x01, 0x2c, 0x81, 0xc8, 0x02, 0xa0];
    expected.extend_from_slice(&[0x11; 32]);
    assert_eq!(r.vote_message, expected);
}

#[test]
fn proof_rejections() {
    let m = metadata(vec![validator(1, 1)]);
    let hash = H256::new([0x11; 32]);
    assert!(matches!(
        verify_proof(7, &mock_proof(8, vec![0x80]), &hash, &m),
        Err(ConsensusError::VerifyProof(7, BlockProofField::HeightMismatch(7, 8)))
    ));
    assert!(matches!(
        verify_proof(7, &mock_proof(7, vec![0x80]), &H256::new([0x12; 32]), &m),
        Err(ConsensusError::VerifyProof(7, BlockProofField::HashMismatch))
    ));
    assert!(matches!(
        verify_proof(100, &mock_proof(100, vec![0x80]), &hash, &m),
        Err(ConsensusError::ConfusedMetadata(0, 100))
    ));
    assert!(matches!(
        verify_proof(7, &mock_proof(7, vec![0x00]), &hash, &m),
        Err(ConsensusError::VerifyProof(7, BlockProofField::Weight))
    ));
}

#[test]
fn weight_check_rejects_strangers() {
    let auths = vec![validator(1, 3), validator(2, 1)];
    assert!(matches!(
        verify_proof_weight(3, &auths, &vec![vec![1], vec![9]]),
        Err(ConsensusError::VerifyProof(3, BlockProofField::Validator))
    ));
    assert!(verify_proof_weight(3, &auths, &vec![vec![1]]).is_ok());
    assert!(matches!(
        verify_proof_weight(3, &auths, &vec![vec![2]]),
        Err(ConsensusError::VerifyProof(3, BlockProofField::Weight))
    ));
}
