use cripto_chain::blockchain::{Chain, ChainError, GENESIS_DATA, GENESIS_PREV_HASH};
use cripto_chain::chain::{proof_of_work, verify_chain};
use cripto_chain::codec::{address_message, blocks_message, list_of, Block, Timestamp};
use cripto_chain::miner::mine;
use sha2::Digest;

fn blocks_above(chain: &Chain, index: u64) -> Vec<Block> {
    chain
        .get_chain()
        .into_iter()
        .filter(|b| b.index > index)
        .collect()
}

fn fixed_block() -> Block {
    Block {
        index: 1,
        nonce: Some(7),
        timestamp: Timestamp { secs: 0, nanos: 0 },
        data: "a\"b\\c\n".to_string(),
        prev_hash: "x".to_string(),
    }
}

/// A copy of `b` whose data is changed so that its hash misses the difficulty.
fn corrupted(b: &Block, proof: u8) -> Block {
    let mut n: u32 = 0;
    loop {
        let mut c = b.clone();
        c.data = format!("corrupted {n}");
        if !proof_of_work(&c.hash(), proof) {
            return c;
        }
        n += 1;
    }
}

#[test]
fn test_add_blocks() {
    let mut chain = Chain::new(2).unwrap();
    chain.create_block("comune".to_string()).unwrap();
    chain.create_block("comune2".to_string()).unwrap();
    let mut chain_2 = chain.clone();
    chain.create_block("mozzarella".to_string()).unwrap();
    chain.create_block("mozzarella2".to_string()).unwrap();
    let chain_json = blocks_above(&chain, 3);
    chain_2
        .add_external_blocks(chain_json)
        .expect("aggiunta avvenuta con successo");
    assert_eq!(chain.get_chain(), chain_2.get_chain())
}

#[test]
fn test_add_wrong_blocks() {
    let mut chain = Chain::new(2).unwrap();
    chain.create_block("comune".to_string()).unwrap();
    chain.create_block("comune2".to_string()).unwrap();
    let mut chain_2 = chain.clone();
    chain_2.create_block("mozzarellaasdfasf".to_string()).unwrap();
    chain.create_block("mozzarella".to_string()).unwrap();
    chain.create_block("mozzarella2".to_string()).unwrap();
    let chain_json = blocks_above(&chain, 3);
    let before = chain_2.get_chain();
    let _ = chain_2.add_external_blocks(chain_json).expect_err("corrompe la catena");
    assert_eq!(chain_2.get_chain(), before);
}

#[test]
fn genesis_is_one_sealed_block() {
    let chain = Chain::new(2).unwrap();
    let blocks = chain.get_chain();
    assert_eq!(blocks.len(), 1);
    assert_eq!(blocks[0].index, 1);
    assert_eq!(blocks[0].data, GENESIS_DATA);
    assert_eq!(blocks[0].prev_hash, GENESIS_PREV_HASH);
    assert_eq!(GENESIS_PREV_HASH, hex::encode(b"INIZIO BELLO"));
    assert!(blocks[0].nonce.unwrap() >= 1);
    assert!(blocks[0].hash().starts_with("00"));
    assert_eq!(chain.get_difficulty(), 2);
}

#[test]
fn four_blocks_make_five_sealed_blocks() {
    let mut chain = Chain::new(2).unwrap();
    for data in ["a", "b", "c", "d"] {
        chain.create_block(data.to_string()).unwrap();
    }
    let blocks = chain.get_chain();
    assert_eq!(blocks.len(), 5);
    for (i, b) in blocks.iter().enumerate() {
        assert_eq!(b.index, i as u64 + 1);
        assert!(b.hash().starts_with("00"));
        if i > 0 {
            assert_eq!(b.prev_hash, blocks[i - 1].hash());
        }
    }
    let data: Vec<&str> = blocks[1..].iter().map(|b| b.data.as_str()).collect();
    assert_eq!(data, vec!["a", "b", "c", "d"]);
    assert!(verify_chain(&mut chain.get_chain(), 2));
}

#[test]
fn corrupting_block_four_keeps_three() {
    let mut chain = Chain::new(2).unwrap();
    for data in ["a", "b", "c", "d"] {
        chain.create_block(data.to_string()).unwrap();
    }
    let mut blocks = chain.get_chain();
    blocks[3] = corrupted(&blocks[3], 2);
    let intact = chain.get_chain();
    assert!(!verify_chain(&mut blocks, 2));
    assert_eq!(blocks.len(), 3);
    assert_eq!(blocks, intact[..3].to_vec());
}

#[test]
fn replacing_with_corrupted_blocks_truncates() {
    let mut chain = Chain::new(2).unwrap();
    for data in ["a", "b", "c", "d"] {
        chain.create_block(data.to_string()).unwrap();
    }
    let intact = chain.get_chain();
    let mut blocks = intact.clone();
    blocks[1] = corrupted(&blocks[1], 2);
    assert!(!chain.replace_chain(blocks));
    assert_eq!(chain.get_chain(), intact[..1].to_vec());
}

#[test]
fn a_broken_link_truncates_from_that_block() {
    let mut chain = Chain::new(2).unwrap();
    for data in ["a", "b", "c"] {
        chain.create_block(data.to_string()).unwrap();
    }
    let intact = chain.get_chain();
    let mut blocks = intact.clone();
    blocks[2].prev_hash = intact[0].hash();
    // re-seal the edited block so that only its link is wrong
    let mut n: u32 = 1;
    loop {
        blocks[2].nonce = Some(n);
        if proof_of_work(&blocks[2].hash(), 2) {
            break;
        }
        n += 1;
    }
    assert!(!verify_chain(&mut blocks, 2));
    assert_eq!(blocks, intact[..2].to_vec());
}

#[test]
fn merging_own_suffix_changes_nothing() {
    let mut chain = Chain::new(2).unwrap();
    for data in ["a", "b", "c"] {
        chain.create_block(data.to_string()).unwrap();
    }
    let before = chain.get_chain();
    for from in 0..=before.len() {
        let suffix = before[from..].to_vec();
        assert_eq!(chain.add_external_blocks(suffix), Ok(()));
        assert_eq!(chain.get_chain(), before);
    }
}

#[test]
fn merging_unsorted_blocks_sorts_them() {
    let mut chain = Chain::new(2).unwrap();
    chain.create_block("a".to_string()).unwrap();
    let mut other = chain.clone();
    chain.create_block("b".to_string()).unwrap();
    chain.create_block("c".to_string()).unwrap();
    let mut incoming = blocks_above(&chain, 2);
    incoming.reverse();
    assert_eq!(other.add_external_blocks(incoming), Ok(()));
    assert_eq!(other.get_chain(), chain.get_chain());
}

#[test]
fn merging_a_gap_is_a_conflict() {
    let mut chain = Chain::new(2).unwrap();
    chain.create_block("a".to_string()).unwrap();
    let mut other = chain.clone();
    chain.create_block("b".to_string()).unwrap();
    chain.create_block("c".to_string()).unwrap();
    let incoming = blocks_above(&chain, 3);
    let before = other.get_chain();
    assert_eq!(other.add_external_blocks(incoming), Err(ChainError::Conflict));
    assert_eq!(other.get_chain(), before);
}

#[test]
fn empty_chain_cannot_be_extended() {
    let mut chain = Chain::new(1).unwrap();
    assert!(chain.replace_chain(Vec::new()));
    assert_eq!(chain.len(), 0);
    assert_eq!(chain.get_last_block(), Err(ChainError::EmptyChain));
    assert_eq!(chain.create_block("x".to_string()), Err(ChainError::EmptyChain));
}

#[test]
fn reload_sorts_and_validates() {
    let mut chain = Chain::new(2).unwrap();
    for data in ["a", "b", "c"] {
        chain.create_block(data.to_string()).unwrap();
    }
    let mut stored = chain.get_chain();
    stored.swap(0, 3);
    stored.swap(1, 2);
    let reloaded = Chain::reload_chain(2, stored);
    assert_eq!(reloaded.get_chain(), chain.get_chain());
    let mut stored = chain.get_chain();
    stored[2] = corrupted(&stored[2], 2);
    let reloaded = Chain::reload_chain(2, stored);
    assert_eq!(reloaded.get_chain(), chain.get_chain()[..2].to_vec());
}

#[test]
fn last_block_is_the_newest() {
    let mut chain = Chain::new(1).unwrap();
    chain.create_block("tip".to_string()).unwrap();
    let last = chain.get_last_block().unwrap();
    assert_eq!(last.index, 2);
    assert_eq!(last.data, "tip");
    assert_eq!(last.prev_hash, chain.get_chain()[0].hash());
}

#[test]
fn canonical_text_of_a_block() {
    let b = fixed_block();
    assert_eq!(
        b.encode(),
        "{\"index\":1,\"nonce\":7,\"timestamp\":\"1970-01-01T00:00:00Z\",\"data\":\"a\\\"b\\\\c\\n\",\"prev_hash\":\"x\"}"
    );
    let mut unsealed = fixed_block();
    unsealed.nonce = None;
    unsealed.index = 1234567890;
    unsealed.timestamp = Timestamp { secs: 1431648000, nanos: 500_000_000 };
    unsealed.data = "\u{1}é".to_string();
    assert_eq!(
        unsealed.encode(),
        "{\"index\":1234567890,\"nonce\":null,\"timestamp\":\"2015-05-15T00:00:00.500Z\",\"data\":\"\\u0001é\",\"prev_hash\":\"x\"}"
    );
}

#[test]
fn content_hash_is_sha256_hex_of_canonical_text() {
    let b = fixed_block();
    let expected = hex::encode(sha2::Sha256::digest(b.encode().as_bytes()));
    assert_eq!(b.hash(), expected);
    assert_eq!(b.hash().len(), 64);
    let mut other = fixed_block();
    other.nonce = Some(8);
    assert_ne!(other.hash(), b.hash());
}

#[test]
fn difficulty_counts_leading_zeros() {
    assert!(proof_of_work("00ab", 2));
    assert!(proof_of_work("00ab", 0));
    assert!(!proof_of_work("0ab", 2));
    assert!(!proof_of_work("00", 3));
    assert!(proof_of_work("000", 3));
    assert!(!proof_of_work("a000", 1));
}

#[test]
fn timestamps_in_range() {
    assert_eq!(Timestamp::new(0, 0), Some(Timestamp { secs: 0, nanos: 0 }));
    assert_eq!(Timestamp::new(-1, 0), None);
    assert_eq!(Timestamp::new(0, 1_000_000_000), None);
    assert!(Timestamp::new(253402300799, 999_999_999).is_some());
    assert_eq!(Timestamp::new(253402300800, 0), None);
    assert!(!Timestamp { secs: 5, nanos: 1_500_000_000 }.is_valid());
}

#[test]
fn lists_are_json_arrays() {
    let items = vec!["1".to_string(), "{\"a\":2}".to_string(), "3".to_string()];
    assert_eq!(list_of(&items, 0), "[]");
    assert_eq!(list_of(&items, 1), "[1]");
    assert_eq!(list_of(&items, 3), "[1,{\"a\":2},3]");
    let b = fixed_block();
    assert_eq!(blocks_message(&vec![]), "[]");
    assert_eq!(blocks_message(&vec![b.clone(), b.clone()]), format!("[{},{}]", b.encode(), b.encode()));
    assert_eq!(address_message("h\"1:3000"), "{\"url\":\"h\\\"1:3000\"}");
}

fn sealed(index: u64, data: &str, prev_hash: String, proof: u8) -> Block {
    let candidate = Block {
        index,
        nonce: None,
        timestamp: Timestamp { secs: 253402300000, nanos: 0 },
        data: data.to_string(),
        prev_hash,
    };
    mine(candidate, proof).unwrap()
}

#[test]
fn the_validator_checks_difficulty_and_links_only() {
    let lone = sealed(5, "five", "anything".to_string(), 1);
    let mut blocks = vec![lone.clone()];
    assert!(verify_chain(&mut blocks, 1));
    assert_eq!(blocks, vec![lone]);
}

#[test]
fn a_gap_in_indices_is_cut_only_by_the_ledger() {
    let first = sealed(1, "one", "x".to_string(), 1);
    let third = sealed(3, "three", first.hash(), 1);
    let fourth = corrupted(&sealed(4, "four", third.hash(), 1), 1);
    let mut blocks = vec![first.clone(), third.clone(), fourth.clone()];
    assert!(!verify_chain(&mut blocks, 1));
    assert_eq!(blocks, vec![first.clone(), third.clone()]);
    let reloaded = Chain::reload_chain(1, vec![fourth, third, first.clone()]);
    assert_eq!(reloaded.get_chain(), vec![first]);
}

#[test]
fn mining_returns_the_least_working_nonce() {
    let b = sealed(1, "least", "x".to_string(), 2);
    assert_eq!(b.timestamp, Timestamp { secs: 253402300000, nanos: 0 });
    let n = b.nonce.unwrap();
    assert!(n >= 1);
    assert!(proof_of_work(&b.hash(), 2));
    for m in 1..n {
        let mut other = b.clone();
        other.nonce = Some(m);
        assert!(!proof_of_work(&other.hash(), 2));
    }
    assert_eq!(b.hash().len(), 64);
}

#[test]
fn an_unusable_clock_reading_is_reported() {
    let late = Timestamp { secs: 253402300800, nanos: 0 };
    let early = Timestamp { secs: -1, nanos: 0 };
    assert_eq!(Chain::genesis_at(1, late).unwrap_err(), ChainError::ClockOutOfRange);
    assert_eq!(Chain::genesis_at(1, early).unwrap_err(), ChainError::ClockOutOfRange);
    let now = Timestamp { secs: 1700000000, nanos: 5 };
    let mut chain = Chain::genesis_at(1, now).unwrap();
    let first = chain.get_chain()[0].clone();
    assert!(first.timestamp == now || first.timestamp.secs > now.secs);
    assert!(first.nonce.is_some());
    let before = chain.get_chain();
    assert_eq!(
        chain.create_block_at("x".to_string(), Timestamp { secs: 5, nanos: 1_000_000_000 }),
        Err(ChainError::ClockOutOfRange)
    );
    assert_eq!(chain.get_chain(), before);
    assert_eq!(chain.create_block_at("x".to_string(), now), Ok(()));
    assert_eq!(chain.len(), 2);
    assert!(chain.get_chain()[1].nonce.is_some());
}
