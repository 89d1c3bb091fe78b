//! Blocks, their hash commitment, and the proof-of-work miner.

use crate::encoding::{
    bytes_equal, decimal, le_bytes, push_decimal, push_le_bytes, sha256, sha256_of, DIGEST_LEN,
};
use vstd::prelude::*;

verus! {

/// Number of leading zero bytes a mined hash must have when no difficulty is given.
pub const DIFFICULTY: usize = 3;

/// One ledger entry.
#[derive(Debug, Clone)]
pub struct Block {
    /// Creation time, in milliseconds since the Unix epoch.
    pub timestamp: u64,
    pub last_hash: Vec<u8>,
    pub hash: Vec<u8>,
    pub data: u8,
    pub nonce: u64,
}

/// Why a block could not be mined.
#[derive(Debug, Clone, Copy, PartialEq, Eq, Structural)]
pub enum MiningError {
    /// The difficulty asks for more zero bytes than a hash has.
    DifficultyTooHigh,
    /// Every nonce was tried without meeting the difficulty.
    NoncesExhausted,
    /// The clock read before the Unix epoch, or too far past it for a
    /// millisecond count to fit in 64 bits.
    ClockUnreadable,
}

/// The bytes a block's hash is taken over: the decimal text of its
/// timestamp, the previous hash, the payload byte, and the nonce in
/// little-endian order.
pub open spec fn hash_input(last_hash: Seq<u8>, timestamp: u64, data: u8, nonce: u64) -> Seq<u8> {
    decimal(timestamp as nat) + last_hash + seq![data] + le_bytes(nonce as nat, 8)
}

/// The hash that a block with these fields commits to.
pub open spec fn block_hash(last_hash: Seq<u8>, timestamp: u64, data: u8, nonce: u64) -> Seq<u8> {
    sha256_of(hash_input(last_hash, timestamp, data, nonce))
}

/// The first `d` bytes of `hash` are zero.
pub open spec fn meets_difficulty(hash: Seq<u8>, d: nat) -> bool {
    forall|i: int| 0 <= i < d ==> hash[i] == 0
}

/// Some clock reading made nonce `n` miss difficulty `d` for a block with
/// these fields.
pub open spec fn nonce_failed(last_hash: Seq<u8>, data: u8, n: u64, d: nat) -> bool {
    exists|t: u64| !meets_difficulty(#[trigger] block_hash(last_hash, t, data, n), d)
}

/// The difficulty in force when `difficulty` is given to the miner.
pub open spec fn effective_difficulty(difficulty: Option<usize>) -> nat {
    match difficulty {
        Some(d) => d as nat,
        None => DIFFICULTY as nat,
    }
}

impl Block {
    /// The hash recomputed from this block's own fields.
    pub open spec fn fields_hash(&self) -> Seq<u8> {
        block_hash(self.last_hash@, self.timestamp, self.data, self.nonce)
    }

    /// This block is the fixed first block of every chain.
    pub open spec fn is_genesis(&self) -> bool {
        &&& self.timestamp == 0
        &&& self.last_hash@ == seq![0u8]
        &&& self.hash@ == seq![0u8]
        &&& self.data == 0
        &&& self.nonce == 0
    }

    pub fn new(timestamp: u64, last_hash: Vec<u8>, hash: Vec<u8>, data: u8, nonce: u64) -> (r: Self)
        ensures
            r.timestamp == timestamp,
            r.last_hash == last_hash,
            r.hash == hash,
            r.data == data,
            r.nonce == nonce,
    {
        Block { timestamp, last_hash, hash, data, nonce }
    }

    /// The genesis block: epoch timestamp, previous hash and hash a single
    /// zero byte, payload and nonce zero.
    pub fn genesis() -> (r: Self)
        ensures
            r.is_genesis(),
    {
        let r = Self::new(0, vec![0u8], vec![0u8], 0, 0);
        assert(r.last_hash@ =~= seq![0u8]);
        assert(r.hash@ =~= seq![0u8]);
        r
    }

    /// The hash of a block with the given fields.
    pub fn calculate_hash(last_hash: &Vec<u8>, timestamp: u64, data: u8, nonce: u64) -> (r: Vec<u8>)
        ensures
            r@ == block_hash(last_hash@, timestamp, data, nonce),
            r@.len() == DIGEST_LEN,
    {
        let mut input: Vec<u8> = Vec::new();
        push_decimal(&mut input, timestamp);
        let mut i: usize = 0;
        while i < last_hash.len()
            invariant
                i <= last_hash@.len(),
                input@ == decimal(timestamp as nat) + last_hash@.subrange(0, i as int),
            decreases last_hash@.len() - i,
        {
            input.push(last_hash[i]);
            assert(last_hash@.subrange(0, i + 1) =~= last_hash@.subrange(0, i as int).push(last_hash@[i as int]));
            i = i + 1;
        }
        assert(last_hash@.subrange(0, i as int) =~= last_hash@);
        input.push(data);
        push_le_bytes(&mut input, nonce);
        assert(input@ =~= hash_input(last_hash@, timestamp, data, nonce));
        sha256(&input)
    }

    /// The hash recomputed from this block's stored fields.
    pub fn recalculate_hash(&self) -> (r: Vec<u8>)
        ensures
            r@ == self.fields_hash(),
    {
        Self::calculate_hash(&self.last_hash, self.timestamp, self.data, self.nonce)
    }

    /// Whether the first `difficulty` bytes of `hash` are zero; a hash
    /// shorter than `difficulty` is a configuration error.
    pub fn proof_hash(hash: &Vec<u8>, difficulty: usize) -> (r: Result<bool, MiningError>)
        ensures
            hash@.len() < difficulty ==> r == Err::<bool, MiningError>(MiningError::DifficultyTooHigh),
            hash@.len() >= difficulty ==> r == Ok::<bool, MiningError>(meets_difficulty(hash@, difficulty as nat)),
    {
        if hash.len() < difficulty {
            return Err(MiningError::DifficultyTooHigh);
        }
        let mut i: usize = 0;
        while i < difficulty
            invariant
                difficulty <= hash@.len(),
                i <= difficulty,
                forall|j: int| 0 <= j < i ==> hash@[j] == 0,
            decreases difficulty - i,
        {
            if hash[i] != 0 {
                return Ok(false);
            }
            i = i + 1;
        }
        Ok(true)
    }

    /// One mining attempt: the block with these fields and their hash when
    /// that hash meets `difficulty`, nothing when it does not, and an error
    /// when `difficulty` exceeds the hash length.
    pub fn try_nonce(last_hash: Vec<u8>, timestamp: u64, data: u8, nonce: u64, difficulty: usize) -> (r: Result<Option<Block>, MiningError>)
        ensures
            difficulty > DIGEST_LEN ==> r == Err::<Option<Block>, MiningError>(MiningError::DifficultyTooHigh),
            difficulty <= DIGEST_LEN && !meets_difficulty(block_hash(last_hash@, timestamp, data, nonce), difficulty as nat)
                ==> r == Ok::<Option<Block>, MiningError>(None),
            difficulty <= DIGEST_LEN && meets_difficulty(block_hash(last_hash@, timestamp, data, nonce), difficulty as nat)
                ==> (r matches Ok(Some(b)) && b.timestamp == timestamp && b.last_hash@ == last_hash@
                    && b.hash@ == block_hash(last_hash@, timestamp, data, nonce) && b.hash@.len() == DIGEST_LEN && b.data == data && b.nonce == nonce),
    {
        let hash = Self::calculate_hash(&last_hash, timestamp, data, nonce);
        match Self::proof_hash(&hash, difficulty) {
            Err(e) => Err(e),
            Ok(true) => Ok(Some(Block::new(timestamp, last_hash, hash, data, nonce))),
            Ok(false) => Ok(None),
        }
    }

    /// Searches nonces from zero upwards, hashing each one with the clock
    /// read afresh, until the hash meets the difficulty (three zero bytes
    /// when none is given). The block links to `last_block`'s hash and keeps
    /// the clock reading of the winning attempt.
    pub fn mine_block(last_block: Block, data: u8, difficulty: Option<usize>) -> (r: Result<Block, MiningError>)
        ensures
            effective_difficulty(difficulty) > DIGEST_LEN <==> r == Err::<Block, MiningError>(MiningError::DifficultyTooHigh),
            effective_difficulty(difficulty) == 0 ==> (r matches Ok(b) && b.nonce == 0)
                || r == Err::<Block, MiningError>(MiningError::ClockUnreadable),
            r matches Ok(b) ==> {
                &&& b.last_hash@ == last_block.hash@
                &&& b.data == data
                &&& b.hash@ == b.fields_hash()
                &&& b.hash@.len() == DIGEST_LEN
                &&& meets_difficulty(b.hash@, effective_difficulty(difficulty))
                &&& forall|n: u64| n < b.nonce ==> #[trigger] nonce_failed(last_block.hash@, data, n, effective_difficulty(difficulty))
            },
            r == Err::<Block, MiningError>(MiningError::NoncesExhausted) ==>
                forall|n: u64| #[trigger] nonce_failed(last_block.hash@, data, n, effective_difficulty(difficulty)),
    {
        let d: usize = match difficulty {
            Some(d) => d,
            None => DIFFICULTY,
        };
        if d > DIGEST_LEN {
            return Err(MiningError::DifficultyTooHigh);
        }
        let last_hash = last_block.hash;
        let mut nonce: u64 = 0;
        loop
            invariant
                d as nat == effective_difficulty(difficulty),
                d <= DIGEST_LEN,
                last_hash@ == last_block.hash@,
                d == 0 ==> nonce == 0,
                forall|n: u64| n < nonce ==> #[trigger] nonce_failed(last_hash@, data, n, d as nat),
            decreases u64::MAX - nonce,
        {
            let now = match now_millis() {
                Some(t) => t,
                None => {
                    return Err(MiningError::ClockUnreadable);
                },
            };
            let candidate = last_hash.clone();
            assert(candidate@ =~= last_hash@);
            match Self::try_nonce(candidate, now, data, nonce, d) {
                Err(e) => {
                    return Err(e);
                },
                Ok(Some(b)) => {
                    return Ok(b);
                },
                Ok(None) => {
                    assert(nonce_failed(last_hash@, data, nonce, d as nat));
                    if nonce == u64::MAX {
                        assert forall|n: u64| #[trigger] nonce_failed(last_hash@, data, n, d as nat) by {
                            if n < nonce {
                            }
                        }
                        return Err(MiningError::NoncesExhausted);
                    }
                    nonce = nonce + 1;
                },
            }
        }
    }
}

impl PartialEq for Block {
    fn eq(&self, other: &Block) -> (r: bool) {
        self.timestamp == other.timestamp && bytes_equal(&self.last_hash, &other.last_hash)
            && bytes_equal(&self.hash, &other.hash) && self.data == other.data && self.nonce
            == other.nonce
    }
}

impl vstd::std_specs::cmp::PartialEqSpecImpl for Block {
    open spec fn obeys_eq_spec() -> bool {
        true
    }

    open spec fn eq_spec(&self, other: &Block) -> bool {
        &&& self.timestamp == other.timestamp
        &&& self.last_hash@ == other.last_hash@
        &&& self.hash@ == other.hash@
        &&& self.data == other.data
        &&& self.nonce == other.nonce
    }
}

/// Relies on `SystemTime::elapsed` from std's `UNIX_EPOCH`: the wall-clock
/// time in milliseconds, or nothing when the clock reads before the epoch or
/// the count does not fit in 64 bits.
#[verifier::external_body]
fn now_millis() -> (r: Option<u64>) {
    std::time::UNIX_EPOCH.elapsed().ok().and_then(|d| u64::try_from(d.as_millis()).ok())
}

} // verus!
