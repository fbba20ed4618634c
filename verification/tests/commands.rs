use lib::commands::{parse_id_pair, Command, ReplConfData, SetArgs, XRangeData, XA};
use lib::helpers::{to_command, to_command_accepts};

#[test]
fn set_args_with_px() {
    let s = SetArgs::from(vec!["set", "k", "v", "PX", "100"]);
    assert_eq!(s.key, "k");
    assert_eq!(s.val, "v");
    assert_eq!(s.expiry, Some(100));
}

#[test]
fn set_args_without_or_with_bad_expiry() {
    assert_eq!(SetArgs::from(vec!["set", "k", "v"]).expiry, None);
    assert_eq!(SetArgs::from(vec!["set", "k", "v", "px", "ten"]).expiry, None);
    assert_eq!(SetArgs::from(vec!["set", "k", "v", "ex", "10"]).expiry, None);
}

#[test]
fn xa_from_keeps_fields() {
    let x = XA::from(vec!["xadd", "s", "1-1", "a", "1", "b", "2"]);
    assert_eq!(x.stream_key, "s");
    assert_eq!(x.id, "1-1");
    assert_eq!(x.key_vals, vec!["a", "1", "b", "2"]);
}

#[test]
fn replconf_reads_listening_port_only() {
    assert_eq!(ReplConfData::from(vec!["replconf", "listening-port", "6380"]).port, Some(6380));
    assert_eq!(ReplConfData::from(vec!["replconf", "capa", "psync2"]).port, None);
    assert_eq!(ReplConfData::from(vec!["replconf", "LISTENING-PORT", "6380"]).port, None);
}

#[test]
fn xrange_bounds() {
    let r = XRangeData::from(vec!["xrange", "s", "-", "+"]);
    assert_eq!(r.key, "s");
    assert_eq!(r.a, (0, 0));
    assert_eq!(r.b, (u128::MAX, u128::MAX));
    let r = XRangeData::from(vec!["xrange", "s", "1-2", "5"]);
    assert_eq!(r.a, (1, 2));
    assert_eq!(r.b, (5, 0));
    let r = XRangeData::from(vec!["xrange", "s", "3-4-5", "7-8"]);
    assert_eq!(r.a, (3, 0));
    assert_eq!(r.b, (7, 8));
}

#[test]
fn id_pairs() {
    assert_eq!(parse_id_pair("12-3"), Some((12, 3)));
    assert_eq!(parse_id_pair("12"), Some((12, 0)));
    assert_eq!(parse_id_pair("a-3"), None);
    assert_eq!(parse_id_pair("-3"), None);
}

#[test]
fn to_command_names_are_case_insensitive() {
    assert!(matches!(to_command(vec!["PiNg"]), Command::Ping));
    assert!(matches!(to_command(vec!["ping"]), Command::Ping));
    match to_command(vec!["ECHO", "hi"]) {
        Command::Echo(s) => assert_eq!(s, "hi"),
        other => panic!("{:?}", other),
    }
}

#[test]
fn to_command_reads_each_command() {
    match to_command(vec!["set", "k", "v", "px", "5"]) {
        Command::SetKey(s) => {
            assert_eq!((s.key.as_str(), s.val.as_str(), s.expiry), ("k", "v", Some(5)));
        },
        other => panic!("{:?}", other),
    }
    match to_command(vec!["GET", "k"]) {
        Command::Get(k) => assert_eq!(k, "k"),
        other => panic!("{:?}", other),
    }
    match to_command(vec!["info", "x", "replication"]) {
        Command::Info(Some(s)) => assert_eq!(s, "replication"),
        other => panic!("{:?}", other),
    }
    assert!(matches!(to_command(vec!["info"]), Command::Info(None)));
    assert!(matches!(to_command(vec!["info", "replication"]), Command::Info(None)));
    assert!(matches!(to_command(vec!["psync", "?", "-1"]), Command::PSYNC));
    match to_command(vec!["replconf", "listening-port", "7001"]) {
        Command::ReplConf(d) => assert_eq!(d.port, Some(7001)),
        other => panic!("{:?}", other),
    }
    assert!(matches!(to_command(vec!["xadd", "s", "1-1"]), Command::Null));
    assert!(matches!(to_command(vec!["type", "k"]), Command::Null));
    assert!(matches!(to_command(vec!["flushall"]), Command::Null));
}

#[test]
fn to_command_accepts_checks_arguments() {
    assert!(to_command_accepts(&vec!["ping"]));
    assert!(!to_command_accepts(&vec![]));
    assert!(!to_command_accepts(&vec!["echo"]));
    assert!(!to_command_accepts(&vec!["set", "k"]));
    assert!(!to_command_accepts(&vec!["set", "k", "v", "PX"]));
    assert!(to_command_accepts(&vec!["set", "k", "v", "EX"]));
    assert!(!to_command_accepts(&vec!["replconf", "listening-port", "x"]));
    assert!(to_command_accepts(&vec!["replconf", "capa", "x"]));
    assert!(to_command_accepts(&vec!["unknown"]));
}
