use lib::data::Config;
use lib::helpers::{parse_config, parse_config_accepts};

fn args(v: &[&str]) -> Vec<String> {
    v.iter().map(|s| s.to_string()).collect()
}

#[test]
fn default_config_is_a_master_on_6379() {
    let c = Config::default();
    assert_eq!(c.port, 6379);
    assert!(c.replication.master);
    assert_eq!(c.replication.replication_id, "8371b4fb1155b71f4a04d3e1bc3e18c4a990aeeb");
    assert_eq!(c.replication.offset, 0);
    assert_eq!(c.replication.master_host, "127.0.0.1");
    assert_eq!(c.replication.master_port, 6379);
    assert!(c.replicas.is_empty());
}

#[test]
fn parse_config_port() {
    let c = parse_config(args(&["prog", "--port", "7000"]));
    assert_eq!(c.port, 7000);
    assert!(c.replication.master);
}

#[test]
fn parse_config_replicaof() {
    let c = parse_config(args(&["prog", "--replicaof", "10.0.0.1", "6380", "--port", "6381"]));
    assert_eq!(c.port, 6381);
    assert!(!c.replication.master);
    assert_eq!(c.replication.replication_id, "");
    assert_eq!(c.replication.master_host, "10.0.0.1");
    assert_eq!(c.replication.master_port, 6380);
}

#[test]
fn parse_config_last_setting_wins() {
    let c = parse_config(args(&["prog", "--port", "1", "--port", "2"]));
    assert_eq!(c.port, 2);
}

#[test]
fn parse_config_no_arguments() {
    let c = parse_config(args(&["prog"]));
    assert_eq!(c.port, 6379);
}

#[test]
fn parse_config_accepts_only_known_flags() {
    assert!(parse_config_accepts(&args(&["prog", "--port", "1"])));
    assert!(parse_config_accepts(&args(&["prog"])));
    assert!(!parse_config_accepts(&args(&["prog", "--verbose"])));
    assert!(!parse_config_accepts(&args(&["prog", "--port"])));
    assert!(!parse_config_accepts(&args(&["prog", "--port", "x"])));
    assert!(!parse_config_accepts(&args(&["prog", "--replicaof", "h"])));
}
