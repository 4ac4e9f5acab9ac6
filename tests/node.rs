use cripto_chain::blockchain::ChainError;
use cripto_chain::codec::Timestamp;
use cripto_chain::node::{CriptoCurrency, ExternalNode, BATCH_SIZE, TRANSACTION_PATH};
use serde_json::Value;

fn transaction(sender: &str, receiver: &str, amount: f32) -> String {
    let mut t = serde_json::Map::new();
    t.insert("sender".to_string(), Value::String(sender.to_string()));
    t.insert("receiver".to_string(), Value::String(receiver.to_string()));
    t.insert("amount".to_string(), Value::from(amount));
    t.insert("fee".to_string(), Value::from(0.05f32));
    t.insert("timestamp".to_string(), Value::String("2024-01-01T00:00:00Z".to_string()));
    serde_json::to_string(&Value::Object(t)).unwrap()
}

fn parsed(text: &str) -> Value {
    serde_json::from_str(text).unwrap()
}

fn node() -> CriptoCurrency {
    CriptoCurrency::new("me:3000".to_string(), 2, Vec::new()).unwrap()
}

#[test]
fn three_transactions_seal_into_one_block() {
    let mut n = node();
    let txs: Vec<String> = ["t1", "t2", "t3"].iter().map(|s| transaction(s, "bob", 1.5)).collect();
    for t in &txs {
        n.add_transaction(t.clone());
    }
    assert_eq!(n.pending_len(), 3);
    let sealed = n.mining_tick().unwrap().unwrap();
    assert_eq!(n.pending_len(), 0);
    let chain = n.get_chain();
    assert_eq!(chain.len(), 2);
    assert_eq!(chain[1], sealed);
    let expected: Vec<Value> = txs.iter().map(|t| parsed(t)).collect();
    assert_eq!(parsed(&sealed.data), Value::Array(expected));
    assert_eq!(sealed.index, 2);
    assert_eq!(sealed.prev_hash, chain[0].hash());
    assert!(sealed.hash().starts_with("00"));
}

#[test]
fn seven_transactions_seal_five_then_two() {
    let mut n = node();
    let txs: Vec<String> = (0..7).map(|i| transaction(&format!("s{i}"), "bob", i as f32)).collect();
    for t in &txs {
        n.add_external_transaction(t.clone());
    }
    let first = n.mining_tick().unwrap().unwrap();
    let expected: Vec<Value> = txs[..BATCH_SIZE].iter().map(|t| parsed(t)).collect();
    assert_eq!(parsed(&first.data), Value::Array(expected));
    assert_eq!(n.get_pending(), txs[5..].to_vec());
    let second = n.mining_tick().unwrap().unwrap();
    let expected: Vec<Value> = txs[5..].iter().map(|t| parsed(t)).collect();
    assert_eq!(parsed(&second.data), Value::Array(expected));
    assert_eq!(n.pending_len(), 0);
    assert_eq!(n.get_chain().len(), 3);
}

#[test]
fn an_idle_tick_does_nothing() {
    let mut n = node();
    let before = n.get_chain();
    assert_eq!(n.mining_tick(), Ok(None));
    assert_eq!(n.get_chain(), before);
}

#[test]
fn own_address_is_never_a_peer() {
    let peers = vec!["a:3000".to_string(), "me:3000".to_string(), "b:3000".to_string()];
    let mut n = CriptoCurrency::new("me:3000".to_string(), 1, peers).unwrap();
    assert_eq!(n.name(), "me:3000");
    assert_eq!(n.peer_urls(""), vec!["a:3000".to_string(), "b:3000".to_string()]);
    assert!(!n.add_node("me:3000".to_string()));
    assert!(!n.add_node("a:3000".to_string()));
    assert!(n.add_node("c:3000".to_string()));
    assert!(!n.add_node("c:3000".to_string()));
    assert_eq!(
        n.peer_urls("/x"),
        vec!["a:3000/x".to_string(), "b:3000/x".to_string(), "c:3000/x".to_string()]
    );
}

#[test]
fn a_local_transaction_is_relayed_to_every_peer() {
    let mut n = CriptoCurrency::new("me".to_string(), 1, vec!["p".to_string(), "q".to_string()]).unwrap();
    let targets = n.add_transaction(transaction("me", "p", 2.0));
    assert_eq!(targets, vec![format!("p{TRANSACTION_PATH}"), format!("q{TRANSACTION_PATH}")]);
    assert_eq!(n.pending_len(), 1);
}

#[test]
fn blocks_from_a_peer_extend_the_chain() {
    let mut a = node();
    let mut b = a.clone();
    a.add_transaction(transaction("x", "y", 1.0));
    let sealed = a.mining_tick().unwrap().unwrap();
    assert_eq!(b.add_external_blocks(vec![sealed.clone()]), Ok(()));
    assert_eq!(b.get_chain(), a.get_chain());
    assert_eq!(b.add_external_blocks(vec![sealed]), Ok(()));
    assert_eq!(b.get_chain(), a.get_chain());
    let mut c = node();
    let before = c.get_chain();
    assert_eq!(c.add_external_blocks(a.get_chain()[1..].to_vec()), Err(ChainError::Conflict));
    assert_eq!(c.get_chain(), before);
}

#[test]
fn an_announced_node_becomes_a_peer() {
    let mut n = node();
    assert!(n.add_external_node(ExternalNode { url: "z:3000".to_string() }));
    assert!(!n.add_external_node(ExternalNode { url: "z:3000".to_string() }));
    assert!(!n.add_external_node(ExternalNode { url: "me:3000".to_string() }));
    assert_eq!(n.peer_urls(""), vec!["z:3000".to_string()]);
}

#[test]
fn a_tick_with_an_unusable_clock_keeps_the_batch() {
    let mut n = node();
    n.add_transaction(transaction("x", "y", 1.0));
    let before = n.get_chain();
    assert_eq!(
        n.mining_tick_at(Timestamp { secs: -5, nanos: 0 }),
        Err(ChainError::ClockOutOfRange)
    );
    assert_eq!(n.pending_len(), 1);
    assert_eq!(n.get_chain(), before);
    let sealed = n.mining_tick_at(Timestamp { secs: 1700000000, nanos: 0 }).unwrap().unwrap();
    assert!(sealed.nonce.is_some());
    assert_eq!(n.pending_len(), 0);
}
