//! A chain of blocks: validation, appending, and longest-valid-chain replacement.

use crate::block::{meets_difficulty, nonce_failed, Block, MiningError, DIFFICULTY};
use crate::encoding::DIGEST_LEN;
use itertools::Itertools;
use vstd::prelude::*;

verus! {

/// A sequence of blocks; `valid_chain` says when it forms a ledger.
#[derive(Debug)]
pub struct Blokhain {
    pub chain: Vec<Block>,
}

/// Why a candidate chain was not taken.
#[derive(Debug, Clone, Copy, PartialEq, Eq, Structural)]
pub enum ReplaceError {
    /// The candidate is not strictly longer than the current chain.
    NotLonger,
    /// The candidate fails validation.
    Invalid,
}

impl ReplaceError {
    /// A human-readable description of the rejection.
    pub fn message(&self) -> (r: &'static str)
        ensures
            *self == ReplaceError::NotLonger ==> r@ == "New chain is NOT longer than the current one"@,
            *self == ReplaceError::Invalid ==> r@ == "New chain is NOT valid"@,
    {
        match self {
            ReplaceError::NotLonger => "New chain is NOT longer than the current one",
            ReplaceError::Invalid => "New chain is NOT valid",
        }
    }
}

/// `next` links to `prev` and carries the hash of its own fields.
pub open spec fn valid_link(prev: Block, next: Block) -> bool {
    &&& next.last_hash@ == prev.hash@
    &&& next.hash@ == next.fields_hash()
}

/// `c` starts with the genesis block and every later block links to the one
/// before it and carries the hash of its own fields.
pub open spec fn valid_chain(c: Seq<Block>) -> bool {
    &&& c.len() > 0
    &&& c[0].is_genesis()
    &&& forall|i: int| 1 <= i < c.len() ==> #[trigger] valid_link(c[i - 1], c[i])
}

/// Relies on itertools' `tuple_windows` over `0..n`: the pairs `(i, i + 1)`
/// for each `i + 1 < n`, in order.
#[verifier::external_body]
fn adjacent_pairs(n: usize) -> (r: Vec<(usize, usize)>)
    ensures
        r@.len() == if n == 0 { 0 } else { n - 1 },
        forall|i: int| 0 <= i < r@.len() ==> #[trigger] r@[i] == (i as usize, (i + 1) as usize),
{
    (0..n).tuple_windows().collect()
}

impl Blokhain {
    /// A chain holding only `genesis`, or the genesis block when none is given.
    pub fn new(genesis: Option<Block>) -> (r: Self)
        ensures
            r.chain@.len() == 1,
            genesis matches Some(b) ==> r.chain@[0] == b,
            genesis is None ==> r.chain@[0].is_genesis(),
            genesis is None ==> valid_chain(r.chain@),
            genesis is None ==> built_by_appends(r.chain@),
    {
        let first = match genesis {
            Some(b) => b,
            None => Block::genesis(),
        };
        let chain = vec![first];
        Blokhain { chain }
    }

    /// Mines a block with the default difficulty on top of the last block and
    /// appends it. On failure the chain is left as it was.
    pub fn add_block(&mut self, data: u8) -> (r: Result<(), MiningError>)
        requires
            old(self).chain@.len() > 0,
        ensures
            r is Err ==> *final(self) == *old(self),
            r is Err ==> r == Err::<(), MiningError>(MiningError::NoncesExhausted)
                || r == Err::<(), MiningError>(MiningError::ClockUnreadable),
            r is Ok ==> {
                let b = final(self).chain@.last();
                &&& final(self).chain@.len() == old(self).chain@.len() + 1
                &&& final(self).chain@.drop_last() == old(self).chain@
                &&& valid_link(old(self).chain@.last(), b)
                &&& b.data == data
                &&& meets_difficulty(b.hash@, DIFFICULTY as nat)
                &&& forall|n: u64| n < b.nonce ==> #[trigger] nonce_failed(old(self).chain@.last().hash@, data, n, DIFFICULTY as nat)
            },
            r is Ok && valid_chain(old(self).chain@) ==> valid_chain(final(self).chain@),
            r is Ok && built_by_appends(old(self).chain@) ==> built_by_appends(final(self).chain@),
    {
        self.add_block_with_difficulty(data, DIFFICULTY)
    }

    /// Mines a block whose hash starts with `difficulty` zero bytes on top of
    /// the last block and appends it. On failure the chain is left as it was;
    /// a difficulty beyond the hash length always fails, and difficulty zero
    /// fails only when the clock cannot be read.
    pub fn add_block_with_difficulty(&mut self, data: u8, difficulty: usize) -> (r: Result<(), MiningError>)
        requires
            old(self).chain@.len() > 0,
        ensures
            difficulty > DIGEST_LEN <==> r == Err::<(), MiningError>(MiningError::DifficultyTooHigh),
            difficulty == 0 ==> r is Ok || r == Err::<(), MiningError>(MiningError::ClockUnreadable),
            difficulty <= DIGEST_LEN && r is Err ==> r == Err::<(), MiningError>(MiningError::NoncesExhausted)
                || r == Err::<(), MiningError>(MiningError::ClockUnreadable),
            r is Err ==> *final(self) == *old(self),
            r is Ok ==> {
                let b = final(self).chain@.last();
                &&& final(self).chain@.len() == old(self).chain@.len() + 1
                &&& final(self).chain@.drop_last() == old(self).chain@
                &&& valid_link(old(self).chain@.last(), b)
                &&& b.data == data
                &&& meets_difficulty(b.hash@, difficulty as nat)
                &&& difficulty == 0 ==> b.nonce == 0
                &&& forall|n: u64| n < b.nonce ==> #[trigger] nonce_failed(old(self).chain@.last().hash@, data, n, difficulty as nat)
            },
            r is Ok && valid_chain(old(self).chain@) ==> valid_chain(final(self).chain@),
            r is Ok && built_by_appends(old(self).chain@) ==> built_by_appends(final(self).chain@),
    {
        let last = &self.chain[self.chain.len() - 1];
        let previous = Block::new(last.timestamp, last.last_hash.clone(), last.hash.clone(), last.data, last.nonce);
        assert(previous.hash@ =~= last.hash@);
        match Block::mine_block(previous, data, Some(difficulty)) {
            Ok(block) => {
                let ghost before = self.chain@;
                self.chain.push(block);
                proof {
                    assert(self.chain@.drop_last() =~= before);
                    assert(self.chain@.last() == block);
                    if valid_chain(before) {
                        lemma_append_keeps_valid(before, block);
                        assert(self.chain@ =~= before.push(block));
                    }
                }
                Ok(())
            },
            Err(e) => Err(e),
        }
    }

    /// Whether the chain starts with the genesis block and every block links
    /// to its predecessor and carries the hash of its own fields.
    pub fn is_valid_chain(&self) -> (r: bool)
        ensures
            r == valid_chain(self.chain@),
    {
        if self.chain.len() == 0 {
            return false;
        }
        if !(self.chain[0] == Block::genesis()) {
            return false;
        }
        let pairs = adjacent_pairs(self.chain.len());
        let mut k: usize = 0;
        while k < pairs.len()
            invariant
                pairs@.len() == self.chain@.len() - 1,
                forall|i: int| 0 <= i < pairs@.len() ==> #[trigger] pairs@[i] == (i as usize, (i + 1) as usize),
                k <= pairs@.len(),
                forall|i: int| 1 <= i <= k ==> #[trigger] valid_link(self.chain@[i - 1], self.chain@[i]),
            decreases pairs@.len() - k,
        {
            let (p, n) = pairs[k];
            assert(pairs@[k as int] == (k, (k + 1) as usize));
            let prev = &self.chain[p];
            let next = &self.chain[n];
            if !crate::encoding::bytes_equal(&next.last_hash, &prev.hash) {
                let ghost i = k + 1;
                assert(!valid_link(self.chain@[i - 1], self.chain@[i]));
                return false;
            }
            let recomputed = next.recalculate_hash();
            if !crate::encoding::bytes_equal(&next.hash, &recomputed) {
                let ghost i = k + 1;
                assert(!valid_link(self.chain@[i - 1], self.chain@[i]));
                return false;
            }
            k = k + 1;
        }
        assert forall|i: int| 1 <= i < self.chain@.len() implies #[trigger] valid_link(self.chain@[i - 1], self.chain@[i]) by {
            assert(i <= k);
        }
        true
    }

    /// Takes `new_chain` when it is strictly longer than this chain and valid;
    /// otherwise leaves this chain untouched and says why.
    pub fn replace_chain(&mut self, new_chain: Blokhain) -> (r: Result<(), ReplaceError>)
        ensures
            new_chain.chain@.len() <= old(self).chain@.len() ==> r == Err::<(), ReplaceError>(ReplaceError::NotLonger),
            new_chain.chain@.len() > old(self).chain@.len() && !valid_chain(new_chain.chain@) ==> r == Err::<(), ReplaceError>(ReplaceError::Invalid),
            new_chain.chain@.len() > old(self).chain@.len() && valid_chain(new_chain.chain@) ==> r == Ok::<(), ReplaceError>(()),
            r is Ok ==> final(self).chain@ == new_chain.chain@,
            r is Err ==> *final(self) == *old(self),
    {
        if new_chain.chain.len() <= self.chain.len() {
            return Err(ReplaceError::NotLonger);
        }
        if !new_chain.is_valid_chain() {
            return Err(ReplaceError::Invalid);
        }
        self.chain = new_chain.chain;
        Ok(())
    }
}

/// The payload byte that a text submission stands for: the value of its
/// first character when that is an ASCII digit, and nothing otherwise.
pub fn parse_payload(text: &[u8]) -> (r: Option<u8>)
    ensures
        text@.len() > 0 && 48 <= text@[0] <= 57 ==> r == Some((text@[0] - 48) as u8),
        !(text@.len() > 0 && 48 <= text@[0] <= 57) ==> r is None,
{
    if text.len() > 0 && 48 <= text[0] && text[0] <= 57 {
        Some(text[0] - 48)
    } else {
        None
    }
}

/// `c` arises from the genesis block by appending, one at a time, blocks
/// that link to the last block and carry the hash of their own fields.
pub open spec fn built_by_appends(c: Seq<Block>) -> bool
    decreases c.len(),
{
    if c.len() <= 1 {
        c.len() == 1 && c[0].is_genesis()
    } else {
        built_by_appends(c.drop_last()) && valid_link(c.drop_last().last(), c.last())
    }
}

/// Every chain built from the genesis block by any number of appends is valid.
pub proof fn lemma_built_by_appends_valid(c: Seq<Block>)
    requires
        built_by_appends(c),
    ensures
        valid_chain(c),
    decreases c.len(),
{
    if c.len() > 1 {
        let p = c.drop_last();
        lemma_built_by_appends_valid(p);
        lemma_append_keeps_valid(p, c.last());
        assert(p.push(c.last()) =~= c);
    }
}

/// Appending a block that links to the last block and carries the hash of
/// its own fields keeps a valid chain valid.
pub proof fn lemma_append_keeps_valid(c: Seq<Block>, b: Block)
    requires
        valid_chain(c),
        valid_link(c.last(), b),
    ensures
        valid_chain(c.push(b)),
{
    let d = c.push(b);
    assert forall|i: int| 1 <= i < d.len() implies #[trigger] valid_link(d[i - 1], d[i]) by {
        if i < c.len() {
            assert(d[i - 1] == c[i - 1] && d[i] == c[i]);
            assert(valid_link(c[i - 1], c[i]));
        }
    }
}

/// Replacing the hash of a non-genesis block of a valid chain by a different
/// one, all other fields kept, makes the chain invalid.
pub proof fn lemma_altered_hash_invalid(c: Seq<Block>, i: int, t: Block)
    requires
        valid_chain(c),
        1 <= i < c.len(),
        t.timestamp == c[i].timestamp,
        t.last_hash@ == c[i].last_hash@,
        t.data == c[i].data,
        t.nonce == c[i].nonce,
        t.hash@ != c[i].hash@,
    ensures
        !valid_chain(c.update(i, t)),
{
    let d = c.update(i, t);
    assert(valid_link(c[i - 1], c[i]));
    assert(!valid_link(d[i - 1], d[i]));
}

/// Replacing the previous hash of a non-genesis block of a valid chain by a
/// different one, all other fields kept, makes the chain invalid.
pub proof fn lemma_altered_last_hash_invalid(c: Seq<Block>, i: int, t: Block)
    requires
        valid_chain(c),
        1 <= i < c.len(),
        t.timestamp == c[i].timestamp,
        t.last_hash@ != c[i].last_hash@,
        t.hash@ == c[i].hash@,
        t.data == c[i].data,
        t.nonce == c[i].nonce,
    ensures
        !valid_chain(c.update(i, t)),
{
    let d = c.update(i, t);
    assert(valid_link(c[i - 1], c[i]));
    assert(!valid_link(d[i - 1], d[i]));
}

/// Replacing the payload of a non-genesis block of a valid chain, all other
/// fields kept, makes the chain invalid whenever the altered fields do not
/// hash to the stored hash.
pub proof fn lemma_altered_data_invalid(c: Seq<Block>, i: int, t: Block)
    requires
        valid_chain(c),
        1 <= i < c.len(),
        t.timestamp == c[i].timestamp,
        t.last_hash@ == c[i].last_hash@,
        t.hash@ == c[i].hash@,
        t.data != c[i].data,
        t.nonce == c[i].nonce,
        t.fields_hash() != c[i].hash@,
    ensures
        !valid_chain(c.update(i, t)),
{
    let d = c.update(i, t);
    assert(!valid_link(d[i - 1], d[i]));
}

} // verus!
