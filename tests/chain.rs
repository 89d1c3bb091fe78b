use blokhain::block::{Block, MiningError};
use blokhain::blokhain::{parse_payload, Blokhain, ReplaceError};

fn message_of(r: Result<(), ReplaceError>) -> Result<(), String> {
    r.map_err(|e| e.message().to_string())
}

#[test]
fn blokhain_test_is_valid_chain() {
    assert!(Blokhain::new(None).is_valid_chain())
}

#[test]
fn blokhain_test_chain_is_not_valid_if_genesis_block_is_wrong() {
    let genesis = Block::genesis();
    let not_genesis = Block::mine_block(genesis, 1, Some(1)).unwrap();

    assert!(!Blokhain::new(Some(not_genesis)).is_valid_chain())
}

#[test]
fn blokhain_test_chain_is_not_valid_if_some_part_of_chain_is_wrong() {
    let genesis = Block::genesis();
    let second_block = Block::mine_block(genesis.clone(), 1, Some(1)).unwrap();
    let alternative_second_block = Block::mine_block(genesis.clone(), 2, Some(1)).unwrap();
    let chain = Blokhain {
        chain: [genesis, second_block, alternative_second_block].to_vec(),
    };

    assert!(!chain.is_valid_chain())
}

#[test]
fn test_is_valid_chain() {
    assert!(Blokhain::new(None).is_valid_chain())
}

#[test]
fn test_chain_is_not_valid_if_genesis_block_is_wrong() {
    let genesis = Block::genesis();
    let not_genesis = Block::mine_block(genesis, 1, Some(0)).unwrap();

    assert!(!Blokhain::new(Some(not_genesis)).is_valid_chain())
}

#[test]
fn test_chain_is_not_valid_if_some_part_of_chain_is_wrong() {
    let genesis = Block::genesis();
    let second_block = Block::mine_block(genesis.clone(), 1, Some(0)).unwrap();
    let alternative_second_block = Block::mine_block(genesis.clone(), 2, Some(0)).unwrap();
    let chain = Blokhain {
        chain: [genesis, second_block, alternative_second_block].to_vec(),
    };

    assert!(!chain.is_valid_chain())
}

#[test]
fn test_replace_chain() {
    let mut bc1 = Blokhain::new(None);
    let mut bc2 = Blokhain::new(None);

    bc2.add_block_with_difficulty(1, 1).unwrap();

    assert!(bc1.replace_chain(bc2).is_ok());
    assert_eq!(bc1.chain.len(), 2);
}

#[test]
fn test_replace_rejects_invalid_chain() {
    let mut bc1 = Blokhain::new(None);
    let bc2 = Blokhain {
        chain: [
            Block::genesis(),
            Block::mine_block(Block::genesis(), 1, Some(1)).unwrap(),
            Block::mine_block(Block::genesis(), 2, Some(1)).unwrap(),
        ]
        .to_vec(),
    };

    let expected = Err("New chain is NOT valid".to_string());
    assert_eq!(expected, message_of(bc1.replace_chain(bc2)));
    assert_eq!(bc1.chain.len(), 1);
}

#[test]
fn test_replace_rejects_short_chain() {
    let mut bc1 = Blokhain::new(None);
    let bc2 = Blokhain::new(None);

    bc1.add_block_with_difficulty(1, 1).unwrap();

    let expected = Err("New chain is NOT longer than the current one".to_string());
    assert_eq!(expected, message_of(bc1.replace_chain(bc2)));
    assert_eq!(bc1.chain.len(), 2);
}

#[test]
fn replace_rejects_equal_length_chain() {
    let mut bc1 = Blokhain::new(None);
    let bc2 = Blokhain::new(None);
    assert_eq!(bc1.replace_chain(bc2), Err(ReplaceError::NotLonger));
    assert_eq!(bc1.chain.len(), 1);
}

#[test]
fn empty_chain_is_not_valid() {
    let chain = Blokhain { chain: Vec::new() };
    assert!(!chain.is_valid_chain());
}

#[test]
fn appended_chain_stays_valid() {
    let mut bc = Blokhain::new(None);
    for payload in 0..4u8 {
        bc.add_block_with_difficulty(payload, 1).unwrap();
        assert!(bc.is_valid_chain());
    }
    assert_eq!(bc.chain.len(), 5);
    for i in 1..5 {
        assert_eq!(bc.chain[i].last_hash, bc.chain[i - 1].hash);
        assert_eq!(bc.chain[i].data, (i - 1) as u8);
    }
}

#[test]
fn fresh_chain_append_with_difficulty_one() {
    let mut bc = Blokhain::new(None);
    assert_eq!(bc.chain.len(), 1);
    bc.add_block_with_difficulty(9, 1).unwrap();
    assert_eq!(bc.chain.len(), 2);
    assert_eq!(bc.chain[1].last_hash, Block::genesis().hash);
    assert_eq!(bc.chain[1].hash[0], 0);
    assert_eq!(bc.chain[1].data, 9);
}

#[test]
fn append_beyond_hash_length_leaves_chain() {
    let mut bc = Blokhain::new(None);
    assert_eq!(bc.add_block_with_difficulty(9, 40), Err(MiningError::DifficultyTooHigh));
    assert_eq!(bc.chain.len(), 1);
}

fn two_block_chain() -> Blokhain {
    let mut bc = Blokhain::new(None);
    bc.add_block_with_difficulty(5, 1).unwrap();
    assert!(bc.is_valid_chain());
    bc
}

#[test]
fn altered_hash_invalidates_chain() {
    let mut bc = two_block_chain();
    bc.chain[1].hash[5] ^= 1;
    assert!(!bc.is_valid_chain());
}

#[test]
fn altered_last_hash_invalidates_chain() {
    let mut bc = two_block_chain();
    bc.chain[1].last_hash = vec![1];
    assert!(!bc.is_valid_chain());
}

#[test]
fn altered_payload_invalidates_chain() {
    let mut bc = two_block_chain();
    bc.chain[1].data = 6;
    assert!(!bc.is_valid_chain());
}

#[test]
fn replace_takes_longer_valid_chain() {
    let mut bc1 = Blokhain::new(None);
    let mut bc2 = Blokhain::new(None);
    bc2.add_block_with_difficulty(3, 1).unwrap();
    bc2.add_block_with_difficulty(4, 1).unwrap();
    let expected = bc2.chain.clone();
    assert_eq!(bc1.replace_chain(bc2), Ok(()));
    assert!(bc1.chain == expected);
}

#[test]
fn rejection_messages() {
    assert_eq!(ReplaceError::NotLonger.message(), "New chain is NOT longer than the current one");
    assert_eq!(ReplaceError::Invalid.message(), "New chain is NOT valid");
}

#[test]
fn payload_is_first_digit() {
    assert_eq!(parse_payload(b"7"), Some(7));
    assert_eq!(parse_payload(b"90"), Some(9));
    assert_eq!(parse_payload(b"0"), Some(0));
    assert_eq!(parse_payload(b"a"), None);
    assert_eq!(parse_payload(b""), None);
}

#[test]
fn append_with_difficulty_zero_takes_first_nonce() {
    let mut bc = Blokhain::new(None);
    assert_eq!(bc.add_block_with_difficulty(3, 0), Ok(()));
    assert_eq!(bc.chain.len(), 2);
    assert_eq!(bc.chain[1].nonce, 0);
    assert!(bc.is_valid_chain());
}
