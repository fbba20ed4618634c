use lib::data::Config;
use lib::handler::{handle, handle_accepts, handshake_advance, handshake_message, HandshakeStage};
use lib::helpers::resp_command;
use lib::table::Table;
use lib::types::{Memory, StreamMemory};

struct Server {
    memory: Memory,
    streams: StreamMemory,
    config: Config,
}

fn server() -> Server {
    Server { memory: Table::new(), streams: Table::new(), config: Config::default() }
}

fn ask(s: &mut Server, cmd: Vec<&str>, now: u128) -> (Vec<u8>, Option<String>) {
    let request = resp_command(cmd);
    assert!(handle_accepts(&request, &s.memory, now));
    let r = handle(&request, &mut s.memory, &mut s.streams, &mut s.config, now);
    (r.reply, r.propagate)
}

#[test]
fn handle_ping_echo_unknown() {
    let mut s = server();
    assert_eq!(ask(&mut s, vec!["PING"], 0).0, b"+PONG\r\n");
    assert_eq!(ask(&mut s, vec!["echo", "hi"], 0).0, b"$2\r\nhi\r\n");
    assert_eq!(ask(&mut s, vec!["foo"], 0).0, b"$-1\r\n");
}

#[test]
fn handle_set_is_passed_on_and_get_reads_it() {
    let mut s = server();
    let (reply, prop) = ask(&mut s, vec!["SET", "k", "v"], 0);
    assert_eq!(reply, b"$2\r\nOK\r\n");
    assert_eq!(prop, Some("*3\r\n$3\r\nSET\r\n$1\r\nk\r\n$1\r\nv\r\n".to_string()));
    let now = s.memory.get("k").unwrap().created_at;
    let (reply, prop) = ask(&mut s, vec!["get", "k"], now);
    assert_eq!(reply, b"$1\r\nv\r\n");
    assert_eq!(prop, None);
}

#[test]
fn handle_get_with_expired_value() {
    let mut s = server();
    ask(&mut s, vec!["set", "k", "v", "px", "10"], 0);
    let t = s.memory.get("k").unwrap().created_at;
    assert_eq!(ask(&mut s, vec!["get", "k"], t + 10).0, b"$-1\r\n");
    assert!(s.memory.get("k").is_none());
}

#[test]
fn handle_accepts_refuses_reads_before_the_write() {
    let mut s = server();
    ask(&mut s, vec!["set", "k", "v", "px", "10"], 100);
    assert_eq!(s.memory.get("k").unwrap().created_at, 100);
    assert!(!handle_accepts(&resp_command(vec!["get", "k"]), &s.memory, 99));
    assert!(!handle_accepts(&resp_command(vec!["set", "k"]), &s.memory, 100));
    ask(&mut s, vec!["set", "k", "v"], 100);
    assert!(handle_accepts(&resp_command(vec!["get", "k"]), &s.memory, 99));
    assert_eq!(ask(&mut s, vec!["get", "k"], 99).0, b"$1\r\nv\r\n");
}

#[test]
fn handle_replication_commands() {
    let mut s = server();
    assert_eq!(ask(&mut s, vec!["REPLCONF", "listening-port", "6380"], 0).0, b"+OK\r\n");
    assert_eq!(s.config.replicas.len(), 1);
    assert_eq!(s.config.replicas[0].port, 6380);
    let reply = ask(&mut s, vec!["PSYNC", "?", "-1"], 0).0;
    let header = b"+FULLRESYNC 8371b4fb1155b71f4a04d3e1bc3e18c4a990aeeb 0\r\n$88\r\nREDIS";
    assert!(reply.starts_with(header));
    let info = ask(&mut s, vec!["info", "replication"], 0).0;
    assert!(String::from_utf8(info).unwrap().contains("role:master"));
}

#[test]
fn handshake_messages() {
    assert_eq!(handshake_message(HandshakeStage::Ping, 6380), "*1\r\n$4\r\nping\r\n");
    assert_eq!(
        handshake_message(HandshakeStage::ListeningPort, 6380),
        "*3\r\n$8\r\nREPLCONF\r\n$14\r\nlistening-port\r\n$4\r\n6380\r\n"
    );
    assert_eq!(
        handshake_message(HandshakeStage::Capa, 6380),
        "*3\r\n$8\r\nREPLCONF\r\n$4\r\ncapa\r\n$6\r\npsync2\r\n"
    );
    assert_eq!(handshake_message(HandshakeStage::Psync, 6380), "*3\r\n$5\r\nPSYNC\r\n$1\r\n?\r\n$2\r\n-1\r\n");
}

#[test]
fn handshake_steps_through_on_expected_answers() {
    let mut stage = HandshakeStage::Ping;
    let answers = ["+PONG\r\n\0\0", "+OK\r\n", "+OK\r\n", "+FULLRESYNC x 0\r\n"];
    for a in answers {
        stage = handshake_advance(stage, a).unwrap();
    }
    assert_eq!(stage, HandshakeStage::Done);
}

#[test]
fn handshake_stops_on_unexpected_answer() {
    assert_eq!(handshake_advance(HandshakeStage::Ping, "-ERR\r\n"), None);
    assert_eq!(handshake_advance(HandshakeStage::ListeningPort, "+PONG\r\n"), None);
    assert_eq!(handshake_advance(HandshakeStage::Capa, ""), None);
}
