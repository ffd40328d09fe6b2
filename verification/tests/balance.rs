use std::sync::Arc;

use mco_rpc::balance::{
    checked_hash_key, hash_key, min_count_position, Dialed, LoadBalance, LoadBalanceType, RpcClient,
};
use mco_rpc::text::{decimal_bytes, same_str};

fn four() -> LoadBalance<String> {
    let mut load: LoadBalance<String> = LoadBalance::new();
    load.put("127.0.0.1:13000".to_string());
    load.put("127.0.0.1:13001".to_string());
    load.put("127.0.0.1:13002".to_string());
    load.put("127.0.0.1:13003".to_string());
    load
}

#[test]
fn test_put() {
    let mut load: LoadBalance<String> = LoadBalance::new();
    load.put("127.0.0.1:13000".to_string());
    load.put("127.0.0.1:13001".to_string());

    let old = load.put("127.0.0.1:13001".to_string()).unwrap();
    assert_eq!(old.addr(), "127.0.0.1:13001".to_string());
}

#[test]
fn test_remove() {
    let mut load: LoadBalance<String> = LoadBalance::new();
    load.put("127.0.0.1:13000".to_string());
    load.put("127.0.0.1:13001".to_string());

    let old = load.remove("127.0.0.1:13000").unwrap();
    assert_eq!(old.addr(), "127.0.0.1:13000".to_string());
}

#[test]
fn test_min_connect() {
    let mut load: LoadBalance<String> = LoadBalance::new();
    load.put("127.0.0.1:13000".to_string());
    load.put("127.0.0.1:13001".to_string());
    load.put("127.0.0.1:13002".to_string());
    load.put("127.0.0.1:13003".to_string());
    let mut v = vec![];
    let item = load.do_balance(LoadBalanceType::MinConnect, "");
    println!("select:{}", item.as_ref().unwrap().addr());
    v.push(item);
    let item = load.do_balance(LoadBalanceType::MinConnect, "");
    println!("select:{}", item.as_ref().unwrap().addr());
    v.push(item);
    let item = load.do_balance(LoadBalanceType::MinConnect, "");
    println!("select:{}", item.as_ref().unwrap().addr());
    v.push(item);
    let item = load.do_balance(LoadBalanceType::MinConnect, "");
    println!("select:{}", item.as_ref().unwrap().addr());
    v.push(item);
    let item = load.do_balance(LoadBalanceType::MinConnect, "");
    println!("select:{}", item.as_ref().unwrap().addr());
    v.push(item);
    let item = load.do_balance(LoadBalanceType::MinConnect, "");
    println!("select:{}", item.as_ref().unwrap().addr());
    v.push(item);
}

#[test]
fn min_connect_spreads_over_held_handles() {
    let mut load = four();
    let mut held = vec![];
    for _ in 0..4 {
        held.push(load.do_balance(LoadBalanceType::MinConnect, "").unwrap());
    }
    let addrs: Vec<&str> = held.iter().map(|c| c.addr()).collect();
    assert_eq!(addrs, vec!["127.0.0.1:13000", "127.0.0.1:13001", "127.0.0.1:13002", "127.0.0.1:13003"]);
    // every client now has two handles, so the first one is picked again
    let again = load.do_balance(LoadBalanceType::MinConnect, "").unwrap();
    assert_eq!(again.addr(), "127.0.0.1:13000");
    // the picked handle points at the held client, not at a copy
    assert!(Arc::ptr_eq(&again, &held[0]));
}

#[test]
fn put_appends_new_and_replaces_in_place() {
    let mut load: LoadBalance<String> = LoadBalance::new();
    assert!(load.put("a".to_string()).is_none());
    assert!(load.put("b".to_string()).is_none());
    assert!(load.put("c".to_string()).is_none());
    let old = load.put("b".to_string()).unwrap();
    assert_eq!(old.addr(), "b");
    let addrs: Vec<&str> = load.rpc_clients.iter().map(|c| c.addr()).collect();
    assert_eq!(addrs, vec!["a", "b", "c"]);
    assert!(load.have("b"));
    assert!(!load.have("d"));
}

#[test]
fn remove_missing_changes_nothing() {
    let mut load = four();
    assert!(load.remove("127.0.0.1:9").is_none());
    assert_eq!(load.rpc_clients.len(), 4);
    let old = load.remove("127.0.0.1:13002").unwrap();
    assert_eq!(old.addr(), "127.0.0.1:13002");
    assert!(!load.have("127.0.0.1:13002"));
    assert_eq!(load.rpc_clients.len(), 3);
}

#[test]
fn remove_undoes_put() {
    let mut load = four();
    load.put("10.0.0.1:1".to_string());
    let back = load.remove("10.0.0.1:1").unwrap();
    assert_eq!(back.addr(), "10.0.0.1:1");
    let addrs: Vec<&str> = load.rpc_clients.iter().map(|c| c.addr()).collect();
    assert_eq!(addrs, vec!["127.0.0.1:13000", "127.0.0.1:13001", "127.0.0.1:13002", "127.0.0.1:13003"]);
}

#[test]
fn clear_empties() {
    let mut load = four();
    load.clear();
    assert_eq!(load.rpc_clients.len(), 0);
    assert!(!load.have("127.0.0.1:13000"));
    assert!(load.do_balance(LoadBalanceType::Random, "").is_none());
}

#[test]
fn every_rule_gives_none_without_clients() {
    let mut load: LoadBalance<String> = LoadBalance::new();
    assert!(load.do_balance(LoadBalanceType::Round, "").is_none());
    assert!(load.do_balance(LoadBalanceType::Random, "").is_none());
    assert!(load.do_balance(LoadBalanceType::Hash, "1.2.3.4").is_none());
    assert!(load.do_balance(LoadBalanceType::Hash, "").is_none());
    assert!(load.do_balance(LoadBalanceType::MinConnect, "").is_none());
    assert_eq!(load.index, 0);
}

#[test]
fn round_takes_turns_and_wraps() {
    let mut load = four();
    let mut seen = vec![];
    for _ in 0..6 {
        let c = load.do_balance(LoadBalanceType::Round, "").unwrap();
        seen.push(c.addr().to_string());
    }
    assert_eq!(
        seen,
        vec![
            "127.0.0.1:13000",
            "127.0.0.1:13001",
            "127.0.0.1:13002",
            "127.0.0.1:13003",
            "127.0.0.1:13000",
            "127.0.0.1:13001"
        ]
    );
    assert_eq!(load.index, 2);
}

#[test]
fn random_picks_a_held_client() {
    let mut load = four();
    for _ in 0..50 {
        let c = load.do_balance(LoadBalanceType::Random, "").unwrap();
        assert!(load.have(c.addr()));
    }
    assert_eq!(load.index, 0);
}

#[test]
fn hash_pairs_ip_with_client() {
    let mut load = four();
    // 'a' = 97, 'b' = 98: 97 * 1 + 98 * 2 = 293, 293 % 4 = 1
    let c = load.do_balance(LoadBalanceType::Hash, "ab").unwrap();
    assert_eq!(c.addr(), "127.0.0.1:13001");
    for _ in 0..5 {
        let again = load.do_balance(LoadBalanceType::Hash, "ab").unwrap();
        assert_eq!(again.addr(), "127.0.0.1:13001");
    }
    let ip = load.do_balance(LoadBalanceType::Hash, "192.168.0.7").unwrap();
    let bytes = "192.168.0.7".as_bytes();
    let expected = (hash_key(bytes) % 4) as usize;
    assert_eq!(ip.addr(), load.rpc_clients[expected].addr());
}

#[test]
fn hash_with_empty_ip_picks_a_held_client() {
    let mut load = four();
    for _ in 0..20 {
        let c = load.do_balance(LoadBalanceType::Hash, "").unwrap();
        assert!(load.have(c.addr()));
    }
}

#[test]
fn pick_by_key_exact() {
    let load = four();
    assert_eq!(load.pick_by_key(&[1, 1]).unwrap().addr(), "127.0.0.1:13003");
    assert_eq!(load.pick_by_key(&[]).unwrap().addr(), "127.0.0.1:13000");
}

#[test]
fn key_hash_values() {
    assert_eq!(hash_key(&[]), 0);
    assert_eq!(hash_key(&[97, 98]), 293);
    assert_eq!(hash_key(&[255, 255, 255]), 255 * 6);
    assert_eq!(hash_key("127.0.0.1".as_bytes()), {
        let mut v = 0i64;
        for (i, b) in "127.0.0.1".bytes().enumerate() {
            v += b as i64 * (i as i64 + 1);
        }
        v
    });
}

#[test]
fn min_count_position_is_first_minimum() {
    assert_eq!(min_count_position(&vec![]), None);
    assert_eq!(min_count_position(&vec![3, 1, 2, 1]), Some(1));
    assert_eq!(min_count_position(&vec![2, 2, 2]), Some(0));
    assert_eq!(min_count_position(&vec![5, 4, 3]), Some(2));
}

#[test]
fn decimal_text() {
    assert_eq!(decimal_bytes(0), b"0".to_vec());
    assert_eq!(decimal_bytes(42), b"42".to_vec());
    assert_eq!(decimal_bytes(-7), b"-7".to_vec());
    assert_eq!(decimal_bytes(i32::MIN), format!("{}", i32::MIN).into_bytes());
    assert_eq!(decimal_bytes(i32::MAX), format!("{}", i32::MAX).into_bytes());
}

#[test]
fn same_str_compares_text() {
    assert!(same_str("127.0.0.1", "127.0.0.1"));
    assert!(!same_str("127.0.0.1", "127.0.0.2"));
    assert!(!same_str("ab", "abc"));
    assert!(same_str("", ""));
    assert!(same_str("héllo", "héllo"));
}

struct Node {
    addr: String,
}

fn dialed(addr: &str) -> Dialed<Node> {
    Dialed { addr: addr.to_string(), client: Node { addr: addr.to_string() } }
}

#[test]
fn own_client_type_balances() {
    let mut load = LoadBalance::<Dialed<Node>>::new();
    load.put(dialed("127.0.0.1:13000"));
    load.put(dialed("127.0.0.1:13001"));
    assert!(load.put(dialed("127.0.0.1:13002")).is_none());
    let old = load.put(dialed("127.0.0.1:13001")).unwrap();
    assert_eq!(old.client.addr, "127.0.0.1:13001");
    let a = load.do_balance(LoadBalanceType::Round, "").unwrap();
    let b = load.do_balance(LoadBalanceType::Round, "").unwrap();
    assert_eq!(a.addr(), "127.0.0.1:13000");
    assert_eq!(b.client.addr, "127.0.0.1:13001");
    assert_eq!(load.rpc_clients.len(), 3);
}

#[test]
fn round_continues_after_remove() {
    let mut load: LoadBalance<String> = LoadBalance::new();
    load.put("a".to_string());
    load.put("b".to_string());
    load.put("c".to_string());
    assert_eq!(load.do_balance(LoadBalanceType::Round, "").unwrap().addr(), "a");
    assert_eq!(load.do_balance(LoadBalanceType::Round, "").unwrap().addr(), "b");
    assert_eq!(load.index, 2);
    load.remove("c");
    // the stored turn is past the end: the pick falls back to the first client
    assert_eq!(load.do_balance(LoadBalanceType::Round, "").unwrap().addr(), "a");
    assert_eq!(load.do_balance(LoadBalanceType::Round, "").unwrap().addr(), "b");
    load.clear();
    load.put("d".to_string());
    assert_eq!(load.do_balance(LoadBalanceType::Round, "").unwrap().addr(), "d");
    assert_eq!(load.do_balance(LoadBalanceType::Round, "").unwrap().addr(), "d");
}

#[test]
fn checked_key_hash_values() {
    assert_eq!(checked_hash_key(&[]), Some(0));
    assert_eq!(checked_hash_key(&[97, 98]), Some(293));
    assert_eq!(checked_hash_key(&[0, 0, 7]), Some(21));
    assert_eq!(checked_hash_key("192.168.0.7".as_bytes()), Some(hash_key("192.168.0.7".as_bytes())));
}

#[test]
fn pick_at_gives_the_client_at_the_position() {
    let load = four();
    assert_eq!(load.pick_at(0).unwrap().addr(), "127.0.0.1:13000");
    assert_eq!(load.pick_at(2).unwrap().addr(), "127.0.0.1:13002");
    assert!(Arc::ptr_eq(&load.pick_at(3).unwrap(), &load.rpc_clients[3]));
}
