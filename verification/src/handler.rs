use vstd::prelude::*;
use vstd::utf8::encode_utf8;
use crate::actions::{
    echo, empty_rdb, fullresync_line, get, get_after, get_reply, info, info_message, null_bulk,
    ping, psync, replconf,
};
use crate::commands::{set_expiry, Command};
use crate::data::{Config, ValType};
use crate::helpers::{
    bulk_string, crlf, lemma_split_front, no_crlf, parse_array, parse_array_spec, resp_array, resp_command, to_command,
    to_command_accepts, to_command_ok, views_of,
};
use crate::number::{decimal, parse_i32_spec};
use crate::text::ascii_lower;
use crate::types::{Memory, StreamMemory};

verus! {

/// What the server does for one request: the bytes it answers, and the
/// command (framed as RESP) it passes on to every replica, if any.
pub struct Response {
    pub reply: Vec<u8>,
    pub propagate: Option<String>,
}

/// The requests `handle` can serve: a command `to_command` can read, and for
/// `GET` of a value with a time to live, one written no later than `now`.
pub open spec fn request_ok(args: Seq<Seq<char>>, m: Map<Seq<char>, crate::data::Val>, now: u128) -> bool {
    &&& to_command_ok(args)
    &&& (ascii_lower(args[0]) == "get"@ && m.contains_key(args[1]) && m[args[1]].expiry is Some
        ==> m[args[1]].created_at <= now)
}

fn copy_strs<'a>(v: &Vec<&'a str>) -> (r: Vec<&'a str>)
    ensures
        r@ == v@,
{
    let mut r: Vec<&'a str> = Vec::new();
    let mut i: usize = 0;
    while i < v.len()
        invariant
            i <= v@.len(),
            r@ == v@.take(i as int),
        decreases v@.len() - i,
    {
        r.push(v[i]);
        i = i + 1;
        assert(r@ =~= v@.take(i as int));
    }
    assert(v@.take(v@.len() as int) =~= v@);
    r
}

fn text_bytes(s: String) -> (r: Vec<u8>)
    ensures
        r@ == encode_utf8(s@),
{
    s.as_str().as_bytes_vec()
}

/// Serves one request: reads the RESP array of bulk strings in `request`,
/// turns it into a command and carries it out at time `now`. A `SET` is
/// passed on to the replicas.
pub fn handle(
    request: &str,
    memory: &mut Memory,
    stream_memory: &mut StreamMemory,
    configuration: &mut Config,
    now: u128,
) -> (r: Response)
    requires
        old(memory).wf(),
        request_ok(parse_array_spec(request@, 2), old(memory)@, now),
    ensures
        final(memory).wf(),
        final(stream_memory)@ == old(stream_memory)@,
        ({
            let args = parse_array_spec(request@, 2);
            let a = ascii_lower(args[0]);
            let m0 = old(memory)@;
            let m1 = final(memory)@;
            let c0 = *old(configuration);
            let c1 = *final(configuration);
            &&& (a != "replconf"@ ==> c1.replicas@ == c0.replicas@)
            &&& c1.port == c0.port
            &&& c1.replication == c0.replication
            &&& (a != "set"@ ==> r.propagate is None)
            &&& (a != "set"@ && a != "get"@ ==> m1 == m0)
            &&& if a == "ping"@ {
                r.reply@ == encode_utf8("+PONG\r\n"@)
            } else if a == "echo"@ {
                r.reply@ == encode_utf8(bulk_string(args[1]))
            } else if a == "set"@ {
                &&& r.reply@ == encode_utf8(bulk_string("OK"@))
                &&& r.propagate matches Some(p) && p@ == resp_array(args)
                &&& m1 == m0.insert(args[1], m1[args[1]])
                &&& m1[args[1]].val@ == args[2]
                &&& m1[args[1]].created_at == now
                &&& m1[args[1]].expiry == set_expiry(args)
                &&& m1[args[1]].value_type == ValType::STRING
            } else if a == "get"@ {
                &&& r.reply@ == encode_utf8(get_reply(m0, args[1], now))
                &&& m1 == get_after(m0, args[1], now)
            } else if a == "info"@ {
                r.reply@ == encode_utf8(
                    bulk_string(
                        info_message(
                            c0.replication.master,
                            c0.replication.replication_id@,
                            c0.replication.offset,
                        ),
                    ),
                )
            } else if a == "psync"@ {
                r.reply@ == encode_utf8(
                    fullresync_line(c0.replication.replication_id@, c0.replication.offset),
                ) + encode_utf8(seq!['$'] + decimal(empty_rdb().len()) + crlf()) + empty_rdb()
            } else if a == "replconf"@ {
                &&& r.reply@ == encode_utf8("+OK\r\n"@)
                &&& match (if args[1] == "listening-port"@ {
                    parse_i32_spec(args[2])
                } else {
                    None
                }) {
                    Some(p) => {
                        &&& c1.replicas@.len() == c0.replicas@.len() + 1
                        &&& c1.replicas@.drop_last() == c0.replicas@
                        &&& c1.replicas@.last().port == p
                        &&& c1.replicas@.last().host@ == "127.0.0.1"@
                    },
                    None => c1.replicas@ == c0.replicas@,
                }
            } else {
                r.reply@ == encode_utf8(null_bulk())
            }
        }),
{
    let command = parse_array(request, None);
    let ghost args = views_of(command@);
    assert(args == parse_array_spec(request@, 2));
    let copy = copy_strs(&command);
    let parsed_command = to_command(command);
    match parsed_command {
        Command::Ping => Response { reply: text_bytes(ping()), propagate: None },
        Command::Echo(v) => Response { reply: text_bytes(echo(v.as_str())), propagate: None },
        Command::SetKey(s) => {
            let (reply, p) = crate::actions::set(s, memory, now, copy);
            Response { reply: text_bytes(reply), propagate: Some(p) }
        },
        Command::Get(k) => Response { reply: text_bytes(get(memory, k.as_str(), now)), propagate: None },
        Command::Info(_) => Response { reply: text_bytes(info(configuration)), propagate: None },
        Command::ReplConf(data) => Response {
            reply: text_bytes(replconf(configuration, data)),
            propagate: None,
        },
        Command::PSYNC => {
            let (header, payload) = psync(configuration);
            let mut reply = text_bytes(header);
            let mut rest = payload;
            reply.append(&mut rest);
            Response { reply: reply, propagate: None }
        },
        _ => Response { reply: text_bytes("$-1\r\n".to_owned()), propagate: None },
    }
}

} // verus!

verus! {

/// Whether `handle` can serve this request now (see `request_ok`).
pub fn handle_accepts(request: &str, memory: &Memory, now: u128) -> (r: bool)
    requires
        memory.wf(),
    ensures
        r == request_ok(parse_array_spec(request@, 2), memory@, now),
{
    let command = parse_array(request, None);
    let ghost args = views_of(command@);
    assert(args == parse_array_spec(request@, 2));
    if !to_command_accepts(&command) {
        return false;
    }
    assert(args[0] == command@[0]@);
    let action = crate::text::to_ascii_lowercase(command[0]);
    if crate::text::str_equal(action.as_str(), "get") {
        assert(args[1] == command@[1]@);
        match memory.get(command[1]) {
            Some(v) => v.expiry.is_none() || v.created_at <= now,
            None => true,
        }
    } else {
        true
    }
}

/// The steps of the handshake a replica makes with its master.
#[derive(Debug, Clone, Copy, PartialEq, Eq, Structural)]
pub enum HandshakeStage {
    /// Send `PING`, expect `+PONG`.
    Ping,
    /// Send `REPLCONF listening-port <port>`, expect `+OK`.
    ListeningPort,
    /// Send `REPLCONF capa psync2`, expect `+OK`.
    Capa,
    /// Send `PSYNC ? -1`; any answer ends the handshake.
    Psync,
    /// Finished.
    Done,
}

/// The command a replica sends at each step of the handshake.
pub open spec fn handshake_command(stage: HandshakeStage, this_port: i32) -> Seq<Seq<char>> {
    match stage {
        HandshakeStage::Ping => seq!["ping"@],
        HandshakeStage::ListeningPort => seq![
            "REPLCONF"@,
            "listening-port"@,
            crate::number::signed_decimal(this_port as int),
        ],
        HandshakeStage::Capa => seq!["REPLCONF"@, "capa"@, "psync2"@],
        _ => seq!["PSYNC"@, "?"@, "-1"@],
    }
}

/// The message a replica sends at step `stage` of its handshake, listening
/// on `this_port`.
pub fn handshake_message(stage: HandshakeStage, this_port: i32) -> (r: String)
    requires
        stage != HandshakeStage::Done,
    ensures
        r@ == resp_array(handshake_command(stage, this_port)),
{
    let mut port_text = String::new();
    crate::number::push_signed_decimal(&mut port_text, this_port);
    assert(port_text@ =~= crate::number::signed_decimal(this_port as int));
    let mut v: Vec<&str> = Vec::new();
    match stage {
        HandshakeStage::Ping => {
            v.push("ping");
        },
        HandshakeStage::ListeningPort => {
            v.push("REPLCONF");
            v.push("listening-port");
            v.push(port_text.as_str());
        },
        HandshakeStage::Capa => {
            v.push("REPLCONF");
            v.push("capa");
            v.push("psync2");
        },
        _ => {
            v.push("PSYNC");
            v.push("?");
            v.push("-1");
        },
    }
    assert(views_of(v@) =~= handshake_command(stage, this_port));
    resp_command(v)
}

/// The step after `stage` given the master's answer `reply`: the first line
/// of the answer must be `+PONG` after `PING` and `+OK` after each
/// `REPLCONF`; `None` when it is not.
pub open spec fn handshake_next(stage: HandshakeStage, reply: Seq<char>) -> Option<HandshakeStage> {
    let first = parse_array_spec(reply, 0)[0];
    match stage {
        HandshakeStage::Ping => if first == "+PONG"@ { Some(HandshakeStage::ListeningPort) } else { None },
        HandshakeStage::ListeningPort => if first == "+OK"@ { Some(HandshakeStage::Capa) } else { None },
        HandshakeStage::Capa => if first == "+OK"@ { Some(HandshakeStage::Psync) } else { None },
        _ => Some(HandshakeStage::Done),
    }
}

/// Checks the master's answer at step `stage` of the handshake and gives
/// the next step, or `None` when the answer is not the expected one.
pub fn handshake_advance(stage: HandshakeStage, reply: &str) -> (r: Option<HandshakeStage>)
    ensures
        r == handshake_next(stage, reply@),
{
    let lines = parse_array(reply, Some(0));
    proof {
        crate::text::lemma_split_scan_nonempty(reply@, crlf(), 0, 0);
    }
    assert(crate::text::split_by(reply@, crlf()).len() >= 1);
    assert(parse_array_spec(reply@, 0).len() >= 1);
    assert(lines@.len() == views_of(lines@).len());
    assert(views_of(lines@)[0] == lines@[0]@);
    let first = lines[0];
    match stage {
        HandshakeStage::Ping => if crate::text::str_equal(first, "+PONG") {
            Some(HandshakeStage::ListeningPort)
        } else {
            None
        },
        HandshakeStage::ListeningPort => if crate::text::str_equal(first, "+OK") {
            Some(HandshakeStage::Capa)
        } else {
            None
        },
        HandshakeStage::Capa => if crate::text::str_equal(first, "+OK") {
            Some(HandshakeStage::Psync)
        } else {
            None
        },
        _ => Some(HandshakeStage::Done),
    }
}

} // verus!

verus! {

proof fn lemma_first_line(line: Seq<char>, rest: Seq<char>)
    requires
        no_crlf(line),
    ensures
        parse_array_spec(line + crlf() + rest, 0)[0] == line,
{
    lemma_split_front(line, rest);
    crate::text::lemma_split_scan_nonempty(rest, crlf(), 0, 0);
}

/// The whole handshake of a replica: it sends `PING`, then
/// `REPLCONF listening-port <port>`, then `REPLCONF capa psync2`, then
/// `PSYNC ? -1`; when the master's answers begin with `+PONG`, `+OK` and
/// `+OK`, each step leads to the next, and any fourth answer ends the
/// handshake.
pub proof fn law_handshake_run(
    this_port: i32,
    rest1: Seq<char>,
    rest2: Seq<char>,
    rest3: Seq<char>,
    r4: Seq<char>,
)
    ensures
        handshake_command(HandshakeStage::Ping, this_port) == seq!["ping"@],
        handshake_command(HandshakeStage::ListeningPort, this_port) == seq![
            "REPLCONF"@,
            "listening-port"@,
            crate::number::signed_decimal(this_port as int),
        ],
        handshake_command(HandshakeStage::Capa, this_port) == seq!["REPLCONF"@, "capa"@, "psync2"@],
        handshake_command(HandshakeStage::Psync, this_port) == seq!["PSYNC"@, "?"@, "-1"@],
        handshake_next(HandshakeStage::Ping, "+PONG"@ + crlf() + rest1) == Some(
            HandshakeStage::ListeningPort,
        ),
        handshake_next(HandshakeStage::ListeningPort, "+OK"@ + crlf() + rest2) == Some(
            HandshakeStage::Capa,
        ),
        handshake_next(HandshakeStage::Capa, "+OK"@ + crlf() + rest3) == Some(
            HandshakeStage::Psync,
        ),
        handshake_next(HandshakeStage::Psync, r4) == Some(HandshakeStage::Done),
{
    reveal_strlit("+PONG");
    reveal_strlit("+OK");
    assert("+PONG"@ =~= seq!['+', 'P', 'O', 'N', 'G']);
    assert("+OK"@ =~= seq!['+', 'O', 'K']);
    assert(no_crlf("+PONG"@));
    assert(no_crlf("+OK"@));
    lemma_first_line("+PONG"@, rest1);
    lemma_first_line("+OK"@, rest2);
    lemma_first_line("+OK"@, rest3);
}

} // verus!

verus! {

/// Every request `to_command` reads is served, except a `GET` of a value
/// with a time to live written after `now`; in particular a `GET` of a key
/// that is not stored is served (and answered with the null bulk string).
pub proof fn law_requests_served(
    args: Seq<Seq<char>>,
    m: Map<Seq<char>, crate::data::Val>,
    now: u128,
)
    requires
        to_command_ok(args),
    ensures
        ascii_lower(args[0]) != "get"@ ==> request_ok(args, m, now),
        !m.contains_key(args[1]) ==> request_ok(args, m, now),
        m.contains_key(args[1]) && m[args[1]].expiry is None ==> request_ok(args, m, now),
        m.contains_key(args[1]) && m[args[1]].created_at <= now ==> request_ok(args, m, now),
{
}

} // verus!
