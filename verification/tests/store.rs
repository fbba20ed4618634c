use lib::actions::{all_created_by, echo, get, info, ping, psync, purge_expired, replconf, type_fn};
use lib::commands::{ReplConfData, SetArgs};
use lib::data::{Config, Val, ValType};
use lib::table::Table;
use lib::types::Memory;

fn set_args(k: &str, v: &str, expiry: Option<u128>) -> SetArgs {
    SetArgs { key: k.to_string(), val: v.to_string(), expiry }
}

fn created(memory: &Memory, k: &str) -> u128 {
    memory.get(k).unwrap().created_at
}

fn set_at(s: SetArgs, memory: &mut Memory) -> String {
    let key = s.key.clone();
    let val = s.val.clone();
    let (reply, propagate) = lib::actions::set(s, memory, 1000, vec!["SET", &key, &val]);
    assert_eq!(propagate, lib::helpers::resp_command(vec!["SET", &key, &val]));
    reply
}

#[test]
fn table_insert_get_remove() {
    let mut t: Table<u32> = Table::new();
    t.insert("a".to_string(), 1);
    t.insert("b".to_string(), 2);
    t.insert("a".to_string(), 3);
    assert_eq!(t.len(), 2);
    assert_eq!(t.get("a"), Some(&3));
    assert_eq!(t.key_at(0), "a");
    assert_eq!(t.key_at(1), "b");
    assert_eq!(t.remove("a"), Some(3));
    assert_eq!(t.remove("a"), None);
    assert_eq!(t.get("a"), None);
    assert_eq!(t.find("b"), Some(0));
}

#[test]
fn ping_and_echo_replies() {
    assert_eq!(ping(), "+PONG\r\n");
    assert_eq!(echo("hey"), "$3\r\nhey\r\n");
}

#[test]
fn get_after_set_reads_the_value() {
    let mut memory: Memory = Table::new();
    let reply = set_at(set_args("k", "v", None), &mut memory);
    assert_eq!(reply, "$2\r\nOK\r\n");
    assert_eq!(created(&memory, "k"), 1000);
    let now = created(&memory, "k");
    assert_eq!(get(&mut memory, "k", now), "$1\r\nv\r\n");
    assert_eq!(get(&mut memory, "k", u128::MAX), "$1\r\nv\r\n");
    assert_eq!(get(&mut memory, "missing", now), "$-1\r\n");
}

#[test]
fn set_overwrites_and_leaves_other_keys() {
    let mut memory: Memory = Table::new();
    set_at(set_args("a", "1", None), &mut memory);
    set_at(set_args("b", "2", None), &mut memory);
    set_at(set_args("a", "3", None), &mut memory);
    let now = created(&memory, "a").max(created(&memory, "b"));
    assert_eq!(get(&mut memory, "a", now), "$1\r\n3\r\n");
    assert_eq!(get(&mut memory, "b", now), "$1\r\n2\r\n");
}

#[test]
fn expired_value_reads_as_missing_and_is_dropped() {
    let mut memory: Memory = Table::new();
    set_at(set_args("k", "v", Some(100)), &mut memory);
    let t = created(&memory, "k");
    assert_eq!(get(&mut memory, "k", t + 99), "$1\r\nv\r\n");
    assert_eq!(memory.len(), 1);
    assert_eq!(get(&mut memory, "k", t + 100), "$-1\r\n");
    assert_eq!(memory.len(), 0);
    assert_eq!(get(&mut memory, "k", t + 1), "$-1\r\n");
}

#[test]
fn val_from_set_and_expiry_check() {
    let v = Val::from(set_args("k", "v", Some(10)), 77);
    assert_eq!(v.created_at, 77);
    assert_eq!(v.val, "v");
    assert_eq!(v.expiry, Some(10));
    assert_eq!(v.value_type, ValType::STRING);
    assert!(!v.is_expired(v.created_at + 9));
    assert!(v.is_expired(v.created_at + 10));
    let w = Val { val: "x".to_string(), created_at: 5, expiry: None, value_type: ValType::STRING };
    assert!(!w.is_expired(u128::MAX));
}

#[test]
fn type_of_keys() {
    let mut memory: Memory = Table::new();
    set_at(set_args("k", "v", None), &mut memory);
    assert_eq!(type_fn(&memory, "k"), "$6\r\nstring\r\n");
    assert_eq!(type_fn(&memory, "nope"), "$4\r\nnone\r\n");
}

#[test]
fn purge_drops_only_expired_values() {
    let mut memory: Memory = Table::new();
    memory.insert(
        "old".to_string(),
        Val { val: "1".to_string(), created_at: 10, expiry: Some(5), value_type: ValType::STRING },
    );
    memory.insert(
        "fresh".to_string(),
        Val { val: "2".to_string(), created_at: 10, expiry: Some(50), value_type: ValType::STRING },
    );
    memory.insert(
        "forever".to_string(),
        Val { val: "3".to_string(), created_at: 10, expiry: None, value_type: ValType::STRING },
    );
    assert!(all_created_by(&memory, 20));
    assert!(!all_created_by(&memory, 9));
    purge_expired(&mut memory, 20);
    assert_eq!(memory.len(), 2);
    assert!(memory.get("old").is_none());
    assert_eq!(memory.get("fresh").unwrap().val, "2");
    assert_eq!(memory.get("forever").unwrap().val, "3");
}

#[test]
fn info_reports_role_and_offset() {
    let c = Config::default();
    let msg = "role:master\nmaster_replid:8371b4fb1155b71f4a04d3e1bc3e18c4a990aeeb\nmaster_repl_offset:0\n";
    assert_eq!(info(&c), format!("${}\r\n{}\r\n", msg.len(), msg));
    let mut c = Config::default();
    c.replication.master = false;
    c.replication.replication_id = String::new();
    c.replication.offset = -3;
    assert_eq!(info(&c), "$48\r\nrole:slave\nmaster_replid:\nmaster_repl_offset:-3\n\r\n");
}

#[test]
fn replconf_registers_replica() {
    let mut c = Config::default();
    assert_eq!(replconf(&mut c, ReplConfData { port: Some(6380) }), "+OK\r\n");
    assert_eq!(c.replicas.len(), 1);
    assert_eq!(c.replicas[0].port, 6380);
    assert_eq!(c.replicas[0].host, "127.0.0.1");
    assert_eq!(replconf(&mut c, ReplConfData { port: None }), "+OK\r\n");
    assert_eq!(c.replicas.len(), 1);
}

#[test]
fn psync_sends_fullresync_and_empty_rdb() {
    let c = Config::default();
    let (header, payload) = psync(&c);
    assert_eq!(header, "+FULLRESYNC 8371b4fb1155b71f4a04d3e1bc3e18c4a990aeeb 0\r\n");
    assert!(payload.starts_with(b"$88\r\nREDIS0011"));
    assert_eq!(payload.len(), 5 + 88);
    assert_eq!(*payload.last().unwrap(), 0xa2);
}

#[test]
fn set_stamps_the_request_time() {
    let mut memory: Memory = Table::new();
    let (reply, propagate) =
        lib::actions::set(set_args("k", "v", Some(100)), &mut memory, 5000, vec!["set", "k", "v", "px", "100"]);
    assert_eq!(reply, "$2\r\nOK\r\n");
    assert_eq!(propagate, "*5\r\n$3\r\nset\r\n$1\r\nk\r\n$1\r\nv\r\n$2\r\npx\r\n$3\r\n100\r\n");
    assert_eq!(created(&memory, "k"), 5000);
    assert_eq!(get(&mut memory, "k", 5099), "$1\r\nv\r\n");
    assert_eq!(get(&mut memory, "k", 5100), "$-1\r\n");
}

#[test]
fn value_without_expiry_reads_back_even_before_its_write_time() {
    let mut memory: Memory = Table::new();
    lib::actions::set(set_args("k", "v", None), &mut memory, 5000, vec!["set", "k", "v"]);
    assert_eq!(get(&mut memory, "k", 10), "$1\r\nv\r\n");
    assert!(all_created_by(&memory, 10));
    purge_expired(&mut memory, 10);
    assert_eq!(memory.len(), 1);
}
