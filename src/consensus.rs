use vstd::prelude::*;

use crate::types::{copy_bytes, H256};

verus! {

/// The header field that failed a check.
#[derive(Debug, PartialEq, Eq, Structural)]
pub enum BlockHeaderField {
    PreviousBlockHash,
}

/// The part of a proof that failed a check.
#[derive(Debug, PartialEq, Eq, Structural)]
pub enum BlockProofField {
    HeightMismatch(u64, u64),
    HashMismatch,
    BitMap,
    Signature,
    Weight,
    WeightNotFound,
    Validator,
}

/// Errors of the consensus adapter.
#[derive(Debug)]
pub enum ConsensusError {
    VerifyTransaction(u64),
    VerifyBlockHeader(u64, BlockHeaderField),
    VerifyProof(u64, BlockProofField),
    ConfusedMetadata(u64, u64),
    StorageItemNotFound,
    OverlordErr(String),
}

/// A member of the authority set.
#[derive(Clone, Debug)]
pub struct Validator {
    pub pub_key: Vec<u8>,
    pub bls_pub_key: Vec<u8>,
    pub propose_weight: u32,
    pub vote_weight: u32,
}

/// The block range `[start, end)` that a metadata epoch covers.
#[derive(Clone, Copy, Debug, PartialEq, Eq, Structural)]
pub struct MetadataVersion {
    pub start: u64,
    pub end: u64,
}

impl MetadataVersion {
    pub open spec fn covers(&self, number: u64) -> bool {
        self.start <= number < self.end
    }

    pub fn contains(&self, number: u64) -> (r: bool)
        ensures
            r == self.covers(number),
    {
        self.start <= number && number < self.end
    }
}

/// Per-epoch configuration.
#[derive(Clone, Debug)]
pub struct Metadata {
    pub version: MetadataVersion,
    pub verifier_list: Vec<Validator>,
    pub consensus_interval: u64,
    pub propose_ratio: u64,
    pub prevote_ratio: u64,
    pub precommit_ratio: u64,
    pub brake_ratio: u64,
    pub gas_limit: u64,
    pub max_tx_size: u64,
}

/// A consensus proof: the precommit votes that committed a block.
#[derive(Clone, Debug)]
pub struct Proof {
    pub number: u64,
    pub round: u64,
    pub block_hash: H256,
    pub signature: Vec<u8>,
    pub bitmap: Vec<u8>,
}

/// What is left to check of a proof once the weights are known to suffice:
/// that `signature` aggregates the signatures of the holders of
/// `bls_pub_keys` over the hash of `vote_message`.
#[derive(Clone, Debug)]
pub struct SignatureCheck {
    pub vote_message: Vec<u8>,
    pub bls_pub_keys: Vec<Vec<u8>>,
    pub signature: Vec<u8>,
}

/// Lexicographic order on byte strings, as `[u8]` orders them.
pub open spec fn bytes_le(a: Seq<u8>, b: Seq<u8>) -> bool
    decreases a.len(),
{
    if a.len() == 0 {
        true
    } else if b.len() == 0 {
        false
    } else if a[0] != b[0] {
        a[0] < b[0]
    } else {
        bytes_le(a.drop_first(), b.drop_first())
    }
}

/// `x` put into the sorted `s` behind every element not above it.
pub open spec fn insert_sorted(s: Seq<Seq<u8>>, x: Seq<u8>) -> Seq<Seq<u8>>
    decreases s.len(),
{
    if s.len() == 0 {
        seq![x]
    } else if bytes_le(s.last(), x) {
        s.push(x)
    } else {
        insert_sorted(s.drop_last(), x).push(s.last())
    }
}

/// `s` sorted in ascending lexicographic order.
pub open spec fn sort_bytes(s: Seq<Seq<u8>>) -> Seq<Seq<u8>>
    decreases s.len(),
{
    if s.len() == 0 {
        s
    } else {
        insert_sorted(sort_bytes(s.drop_last()), s.last())
    }
}

/// Bit `i` of a bitmap, counting from the most significant bit of the first byte.
pub open spec fn bit_set(bitmap: Seq<u8>, i: int) -> bool {
    0 <= i < 8 * bitmap.len() && ((bitmap[i / 8] >> ((7 - i % 8) as u8)) & 1u8) == 1u8
}

/// The elements among the first `n` of `s` whose bit is set, in order.
pub open spec fn select_bits(s: Seq<Seq<u8>>, bitmap: Seq<u8>, n: int) -> Seq<Seq<u8>>
    decreases n,
{
    if n <= 0 {
        Seq::empty()
    } else if bit_set(bitmap, n - 1) {
        select_bits(s, bitmap, n - 1).push(s[n - 1])
    } else {
        select_bits(s, bitmap, n - 1)
    }
}

/// The signing keys of an authority list.
pub open spec fn keys_of(auths: Seq<Validator>) -> Seq<Seq<u8>> {
    auths.map_values(|v: Validator| v.pub_key@)
}

/// The signers that a bitmap selects from the sorted authority list.
pub open spec fn signers(auths: Seq<Validator>, bitmap: Seq<u8>) -> Seq<Seq<u8>> {
    let sorted = sort_bytes(keys_of(auths));
    select_bits(sorted, bitmap, sorted.len() as int)
}

/// Sum of the vote weights of an authority list.
pub open spec fn vote_total(auths: Seq<Validator>) -> int
    decreases auths.len(),
{
    if auths.len() == 0 {
        0
    } else {
        vote_total(auths.drop_last()) + auths.last().vote_weight
    }
}

/// Whether `key` is the signing key of some authority.
pub open spec fn is_authority(auths: Seq<Validator>, key: Seq<u8>) -> bool {
    exists|i: int| 0 <= i < auths.len() && auths[i].pub_key@ == key
}

/// The vote weight of the first authority whose key is `key`.
pub open spec fn weight_of(auths: Seq<Validator>, key: Seq<u8>) -> int
    decreases auths.len(),
{
    if auths.len() == 0 {
        0
    } else if auths[0].pub_key@ == key {
        auths[0].vote_weight as int
    } else {
        weight_of(auths.drop_first(), key)
    }
}

/// Sum of the vote weights of the signers.
pub open spec fn signer_weight(auths: Seq<Validator>, voters: Seq<Seq<u8>>) -> int
    decreases voters.len(),
{
    if voters.len() == 0 {
        0
    } else {
        signer_weight(auths, voters.drop_last()) + weight_of(auths, voters.last())
    }
}

/// The BLS keys of the authorities that signed, in authority-list order.
pub open spec fn signer_bls_keys(auths: Seq<Validator>, voters: Seq<Seq<u8>>) -> Seq<Seq<u8>>
    decreases auths.len(),
{
    if auths.len() == 0 {
        Seq::empty()
    } else if voters.contains(auths.last().pub_key@) {
        signer_bls_keys(auths.drop_last(), voters).push(auths.last().bls_pub_key@)
    } else {
        signer_bls_keys(auths.drop_last(), voters)
    }
}

/// The weight check on a set of signers: each must be an authority, and their
/// summed vote weight must be strictly above two thirds of the total.
pub open spec fn weight_verdict(number: u64, auths: Seq<Validator>, voters: Seq<Seq<u8>>) -> Option<
    ConsensusError,
> {
    if exists|i: int| 0 <= i < voters.len() && !is_authority(auths, voters[i]) {
        Some(ConsensusError::VerifyProof(number, BlockProofField::Validator))
    } else if 3 * signer_weight(auths, voters) <= 2 * vote_total(auths) {
        Some(ConsensusError::VerifyProof(number, BlockProofField::Weight))
    } else {
        None
    }
}

/// The first failure among the checks of a proof of a non-genesis block that
/// come before its signature, if any.
pub open spec fn proof_precheck(
    number: u64,
    proof: Proof,
    proposal_hash: Seq<u8>,
    metadata: Metadata,
) -> Option<ConsensusError> {
    if number != proof.number {
        Some(
            ConsensusError::VerifyProof(
                number,
                BlockProofField::HeightMismatch(number, proof.number),
            ),
        )
    } else if proposal_hash != proof.block_hash@ {
        Some(ConsensusError::VerifyProof(number, BlockProofField::HashMismatch))
    } else if !metadata.version.covers(number) {
        Some(ConsensusError::ConfusedMetadata(metadata.version.start, metadata.version.end))
    } else if proof.bitmap@.len() > usize::MAX / 8 {
        Some(ConsensusError::VerifyProof(number, BlockProofField::BitMap))
    } else {
        weight_verdict(number, metadata.verifier_list@, signers(metadata.verifier_list@, proof.bitmap@))
    }
}

/// Byte-wise equality of two byte strings.
pub fn bytes_eq(a: &Vec<u8>, b: &Vec<u8>) -> (r: bool)
    ensures
        r == (a@ == b@),
{
    if a.len() != b.len() {
        return false;
    }
    let mut i: usize = 0;
    while i < a.len()
        invariant
            a@.len() == b@.len(),
            i <= a@.len(),
            forall|j: int| 0 <= j < i ==> a@[j] == b@[j],
        decreases a@.len() - i,
    {
        if a[i] != b[i] {
            return false;
        }
        i = i + 1;
    }
    assert(a@ =~= b@);
    true
}

/// The byte strings of a vector of byte vectors.
pub open spec fn views_of(s: Seq<Vec<u8>>) -> Seq<Seq<u8>> {
    s.map_values(|v: Vec<u8>| v@)
}

proof fn lemma_weight_of_skip(auths: Seq<Validator>, key: Seq<u8>, i: int)
    requires
        0 <= i < auths.len(),
        auths[i].pub_key@ != key,
    ensures
        weight_of(auths.skip(i), key) == weight_of(auths.skip(i + 1), key),
{
    assert(auths.skip(i).drop_first() =~= auths.skip(i + 1));
}

proof fn lemma_is_authority_skip(auths: Seq<Validator>, key: Seq<u8>, i: int)
    requires
        0 <= i <= auths.len(),
        forall|k: int| 0 <= k < i ==> auths[k].pub_key@ != key,
    ensures
        is_authority(auths, key) == is_authority(auths.skip(i), key),
{
    if is_authority(auths, key) {
        let k = choose|k: int| 0 <= k < auths.len() && auths[k].pub_key@ == key;
        assert(auths.skip(i)[k - i] == auths[k]);
    }
    if is_authority(auths.skip(i), key) {
        let k = choose|k: int| 0 <= k < auths.skip(i).len() && auths.skip(i)[k].pub_key@ == key;
        assert(auths.skip(i)[k] == auths[k + i]);
    }
}

/// The vote weight of the authority whose key is `key`, if there is one.
fn find_weight(auths: &Vec<Validator>, key: &Vec<u8>) -> (r: Option<u32>)
    ensures
        match r {
            Some(w) => is_authority(auths@, key@) && w == weight_of(auths@, key@),
            None => !is_authority(auths@, key@),
        },
{
    let mut i: usize = 0;
    proof {
        assert(auths@.skip(0) =~= auths@);
    }
    while i < auths.len()
        invariant
            i <= auths@.len(),
            forall|k: int| 0 <= k < i ==> auths@[k].pub_key@ != key@,
            weight_of(auths@, key@) == weight_of(auths@.skip(i as int), key@),
        decreases auths@.len() - i,
    {
        if bytes_eq(&auths[i].pub_key, key) {
            proof {
                assert(auths@.skip(i as int)[0] == auths@[i as int]);
            }
            return Some(auths[i].vote_weight);
        }
        proof {
            lemma_weight_of_skip(auths@, key@, i as int);
        }
        i = i + 1;
    }
    proof {
        lemma_is_authority_skip(auths@, key@, i as int);
    }
    None
}

/// The weight check of a proof: every signer must be an authority, and the
/// signers' summed vote weight must exceed two thirds of the total.
pub fn verify_proof_weight(
    block_number: u64,
    authorities: &Vec<Validator>,
    signed_voters: &Vec<Vec<u8>>,
) -> (r: Result<(), ConsensusError>)
    ensures
        match weight_verdict(block_number, authorities@, views_of(signed_voters@)) {
            Some(e) => r == Err::<(), ConsensusError>(e),
            None => r is Ok,
        },
{
    let ghost auths = authorities@;
    let ghost voters = views_of(signed_voters@);
    let mut total: u128 = 0;
    let mut i: usize = 0;
    while i < authorities.len()
        invariant
            auths == authorities@,
            i <= auths.len(),
            total == vote_total(auths.take(i as int)),
            total <= i * 0xffff_ffffu128,
        decreases auths.len() - i,
    {
        assert(auths.take(i + 1).drop_last() =~= auths.take(i as int));
        total = total + authorities[i].vote_weight as u128;
        i = i + 1;
    }
    assert(auths.take(i as int) =~= auths);
    let mut accumulator: u128 = 0;
    let mut j: usize = 0;
    while j < signed_voters.len()
        invariant
            auths == authorities@,
            voters == views_of(signed_voters@),
            total == vote_total(auths),
            total <= usize::MAX * 0xffff_ffffu128,
            j <= voters.len(),
            accumulator == signer_weight(auths, voters.take(j as int)),
            accumulator <= j * 0xffff_ffffu128,
            forall|k: int| 0 <= k < j ==> is_authority(auths, voters[k]),
        decreases voters.len() - j,
    {
        match find_weight(authorities, &signed_voters[j]) {
            Some(w) => {
                assert(voters.take(j + 1).drop_last() =~= voters.take(j as int));
                assert(voters[j as int] == signed_voters@[j as int]@);
                accumulator = accumulator + w as u128;
                j = j + 1;
            },
            None => {
                assert(voters[j as int] == signed_voters@[j as int]@);
                return Err(ConsensusError::VerifyProof(block_number, BlockProofField::Validator));
            },
        }
    }
    assert(voters.take(j as int) =~= voters);
    if 3 * accumulator <= 2 * total {
        return Err(ConsensusError::VerifyProof(block_number, BlockProofField::Weight));
    }
    Ok(())
}

/// Relies on `overlord::extract_voters`: it sorts the authority list by
/// address (the signing key) and keeps, in that order, the address of each
/// authority whose bit is set in the bitmap, read most significant bit first
/// within each byte. Its source never returns an error.
#[verifier::external_body]
fn extract_voters_of(auths: &Vec<Validator>, bitmap: &Vec<u8>) -> (r: Option<Vec<Vec<u8>>>)
    requires
        bitmap@.len() <= usize::MAX / 8,
    ensures
        r is Some,
        views_of(r.unwrap()@) == signers(auths@, bitmap@),
{
    let mut list: Vec<overlord::types::Node> = auths.iter().map(|v| overlord::types::Node {
        address: overlord::types::Address::from(v.pub_key.clone()),
        propose_weight: v.propose_weight,
        vote_weight: v.vote_weight,
    }).collect();
    let bits = overlord::types::Address::from(bitmap.clone());
    overlord::extract_voters(&mut list, &bits).ok().map(|vs| vs.iter().map(|a| a.to_vec()).collect())
}

/// The minimal big-endian bytes of a number; none for zero.
pub open spec fn be_bytes(v: nat) -> Seq<u8>
    decreases v,
{
    if v == 0 {
        Seq::empty()
    } else {
        be_bytes(v / 256).push((v % 256) as u8)
    }
}

/// RLP of a byte string shorter than 56 bytes: a single byte below 0x80
/// stands for itself, anything else gets the prefix `0x80 + length`.
pub open spec fn rlp_short_bytes(b: Seq<u8>) -> Seq<u8> {
    if b.len() == 1 && b[0] < 0x80 {
        b
    } else {
        seq![(0x80 + b.len()) as u8] + b
    }
}

/// RLP of an unsigned integer: its minimal big-endian bytes as a string.
pub open spec fn rlp_u64(v: u64) -> Seq<u8> {
    rlp_short_bytes(be_bytes(v as nat))
}

/// The canonical (RLP) encoding of the precommit vote of a height, round and
/// 32-byte block hash: the list of height, round, vote type 2 and hash. Its
/// payload is at most 52 bytes, so the list prefix is `0xc0 + length`.
pub open spec fn precommit_vote_rlp(height: u64, round: u64, block_hash: Seq<u8>) -> Seq<u8> {
    let payload = rlp_u64(height) + rlp_u64(round) + seq![2u8] + rlp_short_bytes(block_hash);
    seq![(0xc0 + payload.len()) as u8] + payload
}

/// Relies on `rlp::encode` of overlord's `Vote` with the precommit vote type
/// (encoded as the byte 2): a four-item list of the height and round as
/// integers, the vote type, and the hash as a byte string.
#[verifier::external_body]
fn encode_precommit_vote(height: u64, round: u64, block_hash: &H256) -> (r: Vec<u8>)
    ensures
        r@ == precommit_vote_rlp(height, round, block_hash@),
{
    let vote = overlord::types::Vote {
        height,
        round,
        vote_type: overlord::types::VoteType::Precommit,
        block_hash: overlord::types::Hash::from(block_hash.bytes.to_vec()),
    };
    rlp::encode(&vote).to_vec()
}

/// Whether `key` is one of `voters`.
fn has_voter(voters: &Vec<Vec<u8>>, key: &Vec<u8>) -> (r: bool)
    ensures
        r == views_of(voters@).contains(key@),
{
    let mut i: usize = 0;
    while i < voters.len()
        invariant
            i <= voters@.len(),
            forall|k: int| 0 <= k < i ==> voters@[k]@ != key@,
        decreases voters@.len() - i,
    {
        if bytes_eq(&voters[i], key) {
            assert(views_of(voters@)[i as int] == key@);
            return true;
        }
        i = i + 1;
    }
    proof {
        if views_of(voters@).contains(key@) {
            let k = choose|k: int| 0 <= k < views_of(voters@).len() && views_of(voters@)[k] == key@;
            assert(voters@[k]@ == key@);
        }
    }
    false
}

/// The BLS keys of the authorities among `voters`, in authority-list order.
pub fn collect_signer_bls_keys(auths: &Vec<Validator>, voters: &Vec<Vec<u8>>) -> (r: Vec<Vec<u8>>)
    ensures
        views_of(r@) == signer_bls_keys(auths@, views_of(voters@)),
{
    let ghost vs = views_of(voters@);
    let mut r: Vec<Vec<u8>> = Vec::new();
    let mut i: usize = 0;
    while i < auths.len()
        invariant
            vs == views_of(voters@),
            i <= auths@.len(),
            views_of(r@) == signer_bls_keys(auths@.take(i as int), vs),
        decreases auths@.len() - i,
    {
        let ghost before = r@;
        assert(auths@.take(i + 1).drop_last() =~= auths@.take(i as int));
        assert(auths@.take(i + 1).last() == auths@[i as int]);
        if has_voter(voters, &auths[i].pub_key) {
            r.push(copy_bytes(&auths[i].bls_pub_key));
            assert(views_of(r@) =~= views_of(before).push(auths@[i as int].bls_pub_key@));
        }
        i = i + 1;
    }
    assert(auths@.take(i as int) =~= auths@);
    r
}

/// Checks a proof against the block it commits, up to its aggregated
/// signature. The genesis block needs no proof: `Ok(None)`. Otherwise the
/// proof must be for the block's height and for `proposal_hash` (the hash of
/// the block's proposal), the block must lie in the metadata's range, and the
/// signers that the bitmap selects from the sorted authority list must be
/// authorities holding more than two thirds of the vote weight. What is left,
/// the signature over the precommit vote, comes back as `Ok(Some(check))`.
pub fn verify_proof(block_number: u64, proof: &Proof, proposal_hash: &H256, metadata: &Metadata) -> (r:
    Result<Option<SignatureCheck>, ConsensusError>)
    ensures
        block_number == 0 ==> r matches Ok(None),
        block_number != 0 ==> match proof_precheck(block_number, *proof, proposal_hash@, *metadata) {
            Some(e) => r == Err::<Option<SignatureCheck>, ConsensusError>(e),
            None => r matches Ok(Some(c)) && c.vote_message@ == precommit_vote_rlp(
                proof.number,
                proof.round,
                proof.block_hash@,
            ) && views_of(c.bls_pub_keys@) == signer_bls_keys(
                metadata.verifier_list@,
                signers(metadata.verifier_list@, proof.bitmap@),
            ) && c.signature@ == proof.signature@,
        },
{
    if block_number == 0 {
        return Ok(None);
    }
    if block_number != proof.number {
        return Err(
            ConsensusError::VerifyProof(
                block_number,
                BlockProofField::HeightMismatch(block_number, proof.number),
            ),
        );
    }
    if !proposal_hash.same_as(&proof.block_hash) {
        return Err(ConsensusError::VerifyProof(block_number, BlockProofField::HashMismatch));
    }
    if !metadata.version.contains(block_number) {
        return Err(ConsensusError::ConfusedMetadata(metadata.version.start, metadata.version.end));
    }
    if proof.bitmap.len() > usize::MAX / 8 {
        return Err(ConsensusError::VerifyProof(block_number, BlockProofField::BitMap));
    }
    let signed_voters = match extract_voters_of(&metadata.verifier_list, &proof.bitmap) {
        Some(v) => v,
        None => {
            return Err(ConsensusError::VerifyProof(block_number, BlockProofField::BitMap));
        },
    };
    match verify_proof_weight(block_number, &metadata.verifier_list, &signed_voters) {
        Ok(()) => {},
        Err(e) => {
            return Err(e);
        },
    }
    let vote_message = encode_precommit_vote(proof.number, proof.round, &proof.block_hash);
    let bls_pub_keys = collect_signer_bls_keys(&metadata.verifier_list, &signed_voters);
    Ok(Some(SignatureCheck { vote_message, bls_pub_keys, signature: copy_bytes(&proof.signature) }))
}

/// The verdict on a proof's aggregated signature, given whether it verified.
pub fn verify_proof_signature(block_number: u64, verified: bool) -> (r: Result<(), ConsensusError>)
    ensures
        verified ==> r is Ok,
        !verified ==> r == Err::<(), ConsensusError>(
            ConsensusError::VerifyProof(block_number, BlockProofField::Signature),
        ),
{
    if verified {
        Ok(())
    } else {
        Err(ConsensusError::VerifyProof(block_number, BlockProofField::Signature))
    }
}

/// A block header, as far as the core reads it.
#[derive(Clone, Debug)]
pub struct Header {
    pub number: u64,
    pub prev_hash: H256,
    pub state_root: H256,
    pub timestamp: u64,
    pub gas_limit: u64,
    pub proof: Proof,
}

/// A block: its header and the hashes of its transactions, in order.
#[derive(Clone, Debug)]
pub struct Block {
    pub header: Header,
    pub tx_hashes: Vec<H256>,
}

/// A block proposal: the part of a block that voters sign.
#[derive(Clone, Debug)]
pub struct Proposal {
    pub number: u64,
    pub prev_hash: H256,
    pub state_root: H256,
    pub timestamp: u64,
    pub gas_limit: u64,
    pub tx_hashes: Vec<H256>,
}

impl Proposal {
    /// The proposal that a block was made from.
    pub fn from_block(block: &Block) -> (r: Proposal)
        ensures
            r.number == block.header.number,
            r.prev_hash == block.header.prev_hash,
            r.state_root == block.header.state_root,
            r.timestamp == block.header.timestamp,
            r.gas_limit == block.header.gas_limit,
            r.tx_hashes@ == block.tx_hashes@,
    {
        let mut tx_hashes: Vec<H256> = Vec::with_capacity(block.tx_hashes.len());
        let mut i: usize = 0;
        while i < block.tx_hashes.len()
            invariant
                i <= block.tx_hashes@.len(),
                tx_hashes@ == block.tx_hashes@.take(i as int),
            decreases block.tx_hashes@.len() - i,
        {
            tx_hashes.push(block.tx_hashes[i]);
            i = i + 1;
            assert(tx_hashes@ =~= block.tx_hashes@.take(i as int));
        }
        assert(block.tx_hashes@.take(i as int) =~= block.tx_hashes@);
        Proposal {
            number: block.header.number,
            prev_hash: block.header.prev_hash,
            state_root: block.header.state_root,
            timestamp: block.header.timestamp,
            gas_limit: block.header.gas_limit,
            tx_hashes,
        }
    }

    /// The height of the block this proposal extends, if it has one.
    pub fn parent_number(&self) -> (r: Option<u64>)
        ensures
            self.number == 0 ==> r is None,
            self.number != 0 ==> r == Some((self.number - 1) as u64),
    {
        if self.number == 0 {
            None
        } else {
            Some(self.number - 1)
        }
    }
}

/// Checks that a proposal links to the stored header before it:
/// `previous_header_hash` is the hash of the header at the height before the
/// proposal's, or `None` where storage holds no such header.
pub fn verify_block_header(proposal: &Proposal, previous_header_hash: Option<H256>) -> (r: Result<
    (),
    ConsensusError,
>)
    ensures
        previous_header_hash is None ==> r == Err::<(), ConsensusError>(
            ConsensusError::StorageItemNotFound,
        ),
        previous_header_hash matches Some(h) && h@ == proposal.prev_hash@ ==> r is Ok,
        previous_header_hash matches Some(h) && h@ != proposal.prev_hash@ ==> r == Err::<
            (),
            ConsensusError,
        >(ConsensusError::VerifyBlockHeader(proposal.number, BlockHeaderField::PreviousBlockHash)),
{
    match previous_header_hash {
        None => Err(ConsensusError::StorageItemNotFound),
        Some(h) => {
            if h.same_as(&proposal.prev_hash) {
                Ok(())
            } else {
                Err(
                    ConsensusError::VerifyBlockHeader(
                        proposal.number,
                        BlockHeaderField::PreviousBlockHash,
                    ),
                )
            }
        },
    }
}

proof fn lemma_insert_sorted_from(t: Seq<Seq<u8>>, y: Seq<u8>, x: Seq<u8>)
    requires
        insert_sorted(t, y).contains(x),
    ensures
        t.contains(x) || x == y,
    decreases t.len(),
{
    if t.len() == 0 {
        assert(seq![y][0] == y);
    } else if bytes_le(t.last(), y) {
        let ext = t.push(y);
        let k = choose|k: int| 0 <= k < ext.len() && ext[k] == x;
        if k < t.len() {
            assert(t[k] == x);
        }
    } else {
        let u = insert_sorted(t.drop_last(), y);
        let ext = u.push(t.last());
        let k = choose|k: int| 0 <= k < ext.len() && ext[k] == x;
        if k < u.len() {
            assert(u[k] == x);
            lemma_insert_sorted_from(t.drop_last(), y, x);
            if t.drop_last().contains(x) {
                let m = choose|m: int| 0 <= m < t.drop_last().len() && t.drop_last()[m] == x;
                assert(t[m] == x);
            }
        } else {
            assert(t[t.len() - 1] == x);
        }
    }
}

proof fn lemma_sort_from(s: Seq<Seq<u8>>, x: Seq<u8>)
    requires
        sort_bytes(s).contains(x),
    ensures
        s.contains(x),
    decreases s.len(),
{
    if s.len() > 0 {
        lemma_insert_sorted_from(sort_bytes(s.drop_last()), s.last(), x);
        if sort_bytes(s.drop_last()).contains(x) {
            lemma_sort_from(s.drop_last(), x);
            let m = choose|m: int| 0 <= m < s.drop_last().len() && s.drop_last()[m] == x;
            assert(s[m] == x);
        } else {
            assert(s[s.len() - 1] == x);
        }
    }
}

proof fn lemma_select_from(s: Seq<Seq<u8>>, bitmap: Seq<u8>, n: int, x: Seq<u8>)
    requires
        0 <= n <= s.len(),
        select_bits(s, bitmap, n).contains(x),
    ensures
        s.contains(x),
    decreases n,
{
    if n > 0 {
        let prev = select_bits(s, bitmap, n - 1);
        if bit_set(bitmap, n - 1) {
            let ext = prev.push(s[n - 1]);
            let k = choose|k: int| 0 <= k < ext.len() && ext[k] == x;
            if k < prev.len() {
                assert(prev[k] == x);
                lemma_select_from(s, bitmap, n - 1, x);
            } else {
                assert(s[n - 1] == x);
            }
        } else {
            lemma_select_from(s, bitmap, n - 1, x);
        }
    }
}

/// Every signer that a bitmap selects is an authority.
pub proof fn lemma_signers_are_authorities(auths: Seq<Validator>, bitmap: Seq<u8>)
    ensures
        forall|i: int|
            0 <= i < signers(auths, bitmap).len() ==> is_authority(auths, #[trigger] signers(auths, bitmap)[i]),
{
    let sorted = sort_bytes(keys_of(auths));
    assert forall|i: int|
        0 <= i < signers(auths, bitmap).len() implies is_authority(auths, #[trigger] signers(auths, bitmap)[i]) by {
        let x = signers(auths, bitmap)[i];
        assert(signers(auths, bitmap).contains(x));
        lemma_select_from(sorted, bitmap, sorted.len() as int, x);
        lemma_sort_from(keys_of(auths), x);
        let k = choose|k: int| 0 <= k < keys_of(auths).len() && keys_of(auths)[k] == x;
        assert(auths[k].pub_key@ == x);
    }
}

/// A proof of a block other than genesis whose signers hold no more than two
/// thirds of the total vote weight is rejected before its signature is read.
pub proof fn lemma_proof_needs_supermajority(
    number: u64,
    proof: Proof,
    proposal_hash: Seq<u8>,
    metadata: Metadata,
)
    requires
        number != 0,
        3 * signer_weight(metadata.verifier_list@, signers(metadata.verifier_list@, proof.bitmap@))
            <= 2 * vote_total(metadata.verifier_list@),
    ensures
        proof_precheck(number, proof, proposal_hash, metadata) is Some,
{
}

/// A proof of a block other than genesis that is for the block's height and
/// proposal hash, lies in the metadata's range, and whose signers hold more
/// than two thirds of the total vote weight passes every check before the
/// signature; a signature that verifies then completes it.
pub proof fn lemma_proof_with_supermajority_passes(
    number: u64,
    proof: Proof,
    proposal_hash: Seq<u8>,
    metadata: Metadata,
)
    requires
        number != 0,
        proof.number == number,
        proposal_hash == proof.block_hash@,
        metadata.version.covers(number),
        proof.bitmap@.len() <= usize::MAX / 8,
        3 * signer_weight(metadata.verifier_list@, signers(metadata.verifier_list@, proof.bitmap@))
            > 2 * vote_total(metadata.verifier_list@),
    ensures
        proof_precheck(number, proof, proposal_hash, metadata) is None,
{
    lemma_signers_are_authorities(metadata.verifier_list@, proof.bitmap@);
}

/// The answer to the engine's request to check a proposal's transactions:
/// any failure of the order check becomes `VerifyTransaction(number)`.
pub fn verify_txs_outcome(number: u64, checked: Result<(), crate::mempool::MemPoolError>) -> (r: Result<
    (),
    ConsensusError,
>)
    ensures
        checked is Ok ==> r is Ok,
        checked is Err ==> r == Err::<(), ConsensusError>(ConsensusError::VerifyTransaction(number)),
{
    match checked {
        Ok(()) => Ok(()),
        Err(_) => Err(ConsensusError::VerifyTransaction(number)),
    }
}

/// A storage lookup that must find its item.
pub fn found_or_missing<T>(item: Option<T>) -> (r: Result<T, ConsensusError>)
    ensures
        item matches Some(x) ==> r == Ok::<T, ConsensusError>(x),
        item is None ==> r == Err::<T, ConsensusError>(ConsensusError::StorageItemNotFound),
{
    match item {
        Some(x) => Ok(x),
        None => Err(ConsensusError::StorageItemNotFound),
    }
}

} // verus!
