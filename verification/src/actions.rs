use vstd::prelude::*;
use crate::commands::{ReplConfData, SetArgs, XRangeData, XA};
use crate::data::{Config, Replica, Val, ValType};
use vstd::utf8::encode_utf8;
use crate::helpers::{
    bulk_string, concat_u8, crlf, hex_decode, hex_to_binary, resp_array, resp_command, resp_response,
    views_of,
};
use crate::number::{decimal, push_decimal, push_signed_decimal, signed_decimal};
use crate::table::Table;
use crate::text::push_str;
use crate::types::{Memory, StreamMemory};
use crate::data::Stream;
use crate::streams::{
    base_top, entry_in_range, entry_view, id_text, ids_parse, in_range_slots, in_range_views,
    lemma_sort_by_nid, nid_sorted, pair_lt, parse_xa_ok, range_resp, range_view,
    stream_add, stream_range, streams_wf, top_pair, xa_top, xadd_applied, IdError,
};
use crate::helpers::string_views;
use crate::table::Slot;

verus! {

/// The RESP "null bulk string", the reply for a missing key.
pub open spec fn null_bulk() -> Seq<char> {
    "$-1\r\n"@
}

/// The reply to `PING`.
pub fn ping() -> (r: String)
    ensures
        r@ == "+PONG\r\n"@,
{
    "+PONG\r\n".to_owned()
}

/// The reply to `ECHO data`: the data as a bulk string.
pub fn echo(data: &str) -> (r: String)
    ensures
        r@ == bulk_string(data@),
{
    resp_response(data)
}

/// Stores the value of a `SET` request received at time `now` under its
/// key and gives the reply `OK`, together with the request `command` framed
/// as RESP, which is to be passed on to every replica.
pub fn set(s: SetArgs, memory: &mut Memory, now: u128, command: Vec<&str>) -> (r: (String, String))
    requires
        old(memory).wf(),
    ensures
        final(memory).wf(),
        final(memory)@ == old(memory)@.insert(s.key@, final(memory)@[s.key@]),
        final(memory)@[s.key@].val@ == s.val@,
        final(memory)@[s.key@].created_at == now,
        final(memory)@[s.key@].expiry == s.expiry,
        final(memory)@[s.key@].value_type == ValType::STRING,
        r.0@ == bulk_string("OK"@),
        r.1@ == resp_array(views_of(command@)),
{
    let propagate = resp_command(command);
    let key = s.key.clone();
    let v = Val::from(s, now);
    let ghost v_copy = v;
    memory.insert(key, v);
    assert(memory@[key@] == v_copy);
    (resp_response("OK"), propagate)
}

/// What a read of key `k` at time `now` answers: the value as a bulk
/// string while it lives, the null bulk string when it is missing or expired.
pub open spec fn get_reply(m: Map<Seq<char>, Val>, k: Seq<char>, now: u128) -> Seq<char> {
    if m.contains_key(k) && !m[k].expired_at(now) {
        bulk_string(m[k].val@)
    } else {
        null_bulk()
    }
}

/// The store after a read of key `k` at time `now`: an expired value is dropped.
pub open spec fn get_after(m: Map<Seq<char>, Val>, k: Seq<char>, now: u128) -> Map<Seq<char>, Val> {
    if m.contains_key(k) && m[k].expired_at(now) {
        m.remove(k)
    } else {
        m
    }
}

/// Answers `GET k` at time `now`; a value found expired is removed.
pub fn get(memory: &mut Memory, k: &str, now: u128) -> (r: String)
    requires
        old(memory).wf(),
        old(memory)@.contains_key(k@) && old(memory)@[k@].expiry is Some ==> old(memory)@[
            k@
        ].created_at <= now,
    ensures
        final(memory).wf(),
        r@ == get_reply(old(memory)@, k@, now),
        final(memory)@ == get_after(old(memory)@, k@, now),
{
    let mut expired = false;
    let mut response = "$-1\r\n".to_owned();
    match memory.get(k) {
        Some(v) => {
            if v.is_expired(now) {
                expired = true;
            } else {
                response = resp_response(v.val.as_str());
            }
        },
        None => {},
    }
    if expired {
        let _ = memory.remove(k);
    }
    response
}

/// The name `TYPE` answers for a key.
pub open spec fn kind_name(m: Map<Seq<char>, Val>, k: Seq<char>) -> Seq<char> {
    if m.contains_key(k) {
        match m[k].value_type {
            ValType::STRING => "string"@,
            ValType::STREAM => "stream"@,
        }
    } else {
        "none"@
    }
}

/// The reply to `TYPE k`: the kind of the stored value, or `none`.
pub fn type_fn(memory: &Memory, k: &str) -> (r: String)
    requires
        memory.wf(),
    ensures
        r@ == bulk_string(kind_name(memory@, k@)),
{
    match memory.get(k) {
        Some(v) => {
            let typ = match v.value_type {
                ValType::STRING => "string",
                ValType::STREAM => "stream",
            };
            resp_response(typ)
        },
        None => resp_response("none"),
    }
}

/// The text `INFO` reports: role, replication id and offset, one per line.
pub open spec fn info_message(master: bool, id: Seq<char>, offset: i32) -> Seq<char> {
    "role:"@ + (if master { "master"@ } else { "slave"@ }) + "\nmaster_replid:"@ + id
        + "\nmaster_repl_offset:"@ + signed_decimal(offset as int) + "\n"@
}

/// The reply to `INFO`: the replication section as a bulk string.
pub fn info(configuration: &Config) -> (r: String)
    ensures
        r@ == bulk_string(
            info_message(
                configuration.replication.master,
                configuration.replication.replication_id@,
                configuration.replication.offset,
            ),
        ),
{
    let role = if configuration.replication.master {
        "master"
    } else {
        "slave"
    };
    let mut message = String::new();
    push_str(&mut message, "role:");
    push_str(&mut message, role);
    push_str(&mut message, "\nmaster_replid:");
    push_str(&mut message, configuration.replication.replication_id.as_str());
    push_str(&mut message, "\nmaster_repl_offset:");
    push_signed_decimal(&mut message, configuration.replication.offset);
    push_str(&mut message, "\n");
    assert(message@ =~= info_message(
        configuration.replication.master,
        configuration.replication.replication_id@,
        configuration.replication.offset,
    ));
    resp_response(message.as_str())
}

/// Handles `REPLCONF`: a `listening-port` registers a replica on the local
/// host at that port. The reply is `OK`.
pub fn replconf(configuration: &mut Config, data: ReplConfData) -> (r: String)
    ensures
        r@ == "+OK\r\n"@,
        final(configuration).port == old(configuration).port,
        final(configuration).replication == old(configuration).replication,
        match data.port {
            Some(p) => {
                &&& final(configuration).replicas@.len() == old(configuration).replicas@.len() + 1
                &&& final(configuration).replicas@.drop_last() == old(configuration).replicas@
                &&& final(configuration).replicas@.last().port == p
                &&& final(configuration).replicas@.last().host@ == "127.0.0.1"@
            },
            None => final(configuration).replicas@ == old(configuration).replicas@,
        },
{
    match data.port {
        Some(v) => {
            configuration.replicas.push(Replica { port: v, host: "127.0.0.1".to_owned() });
        },
        None => {},
    }
    "+OK\r\n".to_owned()
}

} // verus!

verus! {

/// The RDB snapshot a master sends to a new replica (an empty database),
/// written in hexadecimal.
pub open spec fn empty_rdb_hex() -> Seq<char> {
    "524544495330303131fa0972656469732d76657205372e322e30fa0a72656469732d62697473c040fa056374696d65c26d08bc65fa08757365642d6d656dc2b0c41000fa08616f662d62617365c000fff06e3bfec0ff5aa2"@
}

/// The bytes of the empty RDB snapshot (no bytes if its text did not decode).
pub open spec fn empty_rdb() -> Seq<u8> {
    match hex_decode(encode_utf8(empty_rdb_hex())) {
        Some(x) => x,
        None => Seq::empty(),
    }
}

/// The first line of the reply to `PSYNC`.
pub open spec fn fullresync_line(id: Seq<char>, offset: i32) -> Seq<char> {
    "+FULLRESYNC "@ + id + " "@ + signed_decimal(offset as int) + "\r\n"@
}

/// The reply to `PSYNC`: the `+FULLRESYNC <id> <offset>` line, then the RDB
/// snapshot as `$<length>\r\n` followed by its bytes.
pub fn psync(configuration: &Config) -> (r: (String, Vec<u8>))
    ensures
        r.0@ == fullresync_line(
            configuration.replication.replication_id@,
            configuration.replication.offset,
        ),
        r.1@ == encode_utf8(seq!['$'] + decimal(empty_rdb().len()) + crlf()) + empty_rdb(),
{
    let mut response = String::new();
    push_str(&mut response, "+FULLRESYNC ");
    push_str(&mut response, configuration.replication.replication_id.as_str());
    push_str(&mut response, " ");
    push_signed_decimal(&mut response, configuration.replication.offset);
    push_str(&mut response, "\r\n");
    assert(response@ =~= fullresync_line(
        configuration.replication.replication_id@,
        configuration.replication.offset,
    ));
    let empty_rdb_text = "524544495330303131fa0972656469732d76657205372e322e30fa0a72656469732d62697473c040fa056374696d65c26d08bc65fa08757365642d6d656dc2b0c41000fa08616f662d62617365c000fff06e3bfec0ff5aa2";
    let mut x = match hex_to_binary(empty_rdb_text) {
        Some(v) => v,
        None => Vec::new(),
    };
    let mut prefix = String::new();
    prefix.push('$');
    push_decimal(&mut prefix, x.len() as u128);
    prefix.push('\r');
    prefix.push('\n');
    assert(prefix@ =~= seq!['$'] + decimal(empty_rdb().len()) + crlf());
    let mut a = prefix.as_str().as_bytes_vec();
    concat_u8(&mut a, &mut x);
    (response, a)
}

/// Every value with a time to live was written no later than `now`.
pub open spec fn created_by(m: Map<Seq<char>, Val>, now: u128) -> bool {
    forall|k: Seq<char>| #[trigger] m.contains_key(k) && m[k].expiry is Some ==> m[k].created_at <= now
}

/// Whether every value with a time to live in the store was written no
/// later than `now`.
pub fn all_created_by(memory: &Memory, now: u128) -> (r: bool)
    requires
        memory.wf(),
    ensures
        r == created_by(memory@, now),
{
    let n = memory.len();
    let mut i: usize = 0;
    while i < n
        invariant
            memory.wf(),
            n == memory.slots().len(),
            i <= n,
            forall|j: int|
                0 <= j < i ==> (#[trigger] memory.slots()[j]).value.expiry is Some ==> memory.slots()[j].value.created_at <= now,
        decreases n - i,
    {
        if memory.value_at(i).expiry.is_some() && memory.value_at(i).created_at > now {
            proof {
                memory.lemma_index_of(i as int);
                let k = memory.slots()[i as int].key@;
                assert(memory@.contains_key(k));
                assert(memory@[k] == memory.slots()[i as int].value);
            }
            return false;
        }
        i = i + 1;
    }
    assert forall|k: Seq<char>| #[trigger] memory@.contains_key(k) && memory@[k].expiry is Some implies memory@[k].created_at
        <= now by {
        let j = memory.index_of(k);
    }
    true
}

/// The keys whose values have expired at time `now`.
pub open spec fn expired_keys(m: Map<Seq<char>, Val>, now: u128) -> Set<Seq<char>> {
    m.dom().filter(|k: Seq<char>| m[k].expired_at(now))
}

/// Drops every value that has expired at time `now`.
pub fn purge_expired(memory: &mut Memory, now: u128)
    requires
        old(memory).wf(),
        created_by(old(memory)@, now),
    ensures
        final(memory).wf(),
        final(memory)@ == old(memory)@.remove_keys(expired_keys(old(memory)@, now)),
{
    let ghost m0 = memory@;
    let n = memory.len();
    let mut doomed: Vec<String> = Vec::new();
    let mut i: usize = 0;
    while i < n
        invariant
            memory.wf(),
            memory@ == m0,
            created_by(m0, now),
            n == memory.slots().len(),
            i <= n,
            forall|j: int|
                0 <= j < doomed@.len() ==> #[trigger] expired_keys(m0, now).contains(doomed@[j]@),
            forall|j: int|
                0 <= j < i && (#[trigger] memory.slots()[j]).value.expired_at(now) ==> exists|
                    d: int,
                | 0 <= d < doomed@.len() && (#[trigger] doomed@[d])@ == memory.slots()[j].key@,
        decreases n - i,
    {
        proof {
            memory.lemma_index_of(i as int);
            let k = memory.slots()[i as int].key@;
            assert(memory@.contains_key(k));
            assert(memory@[k] == memory.slots()[i as int].value);
        }
        let ghost before = doomed@;
        let v = memory.value_at(i);
        if v.is_expired(now) {
            let key = memory.key_at(i).clone();
            doomed.push(key);
            assert(doomed@[doomed@.len() - 1]@ == memory.slots()[i as int].key@);
            assert(expired_keys(m0, now).contains(memory.slots()[i as int].key@));
        }
        i = i + 1;
        assert forall|j: int|
            0 <= j < i && (#[trigger] memory.slots()[j]).value.expired_at(now) implies exists|
                d: int,
            | 0 <= d < doomed@.len() && (#[trigger] doomed@[d])@ == memory.slots()[j].key@ by {
            if j < i - 1 {
                let d = choose|d: int|
                    0 <= d < before.len() && (#[trigger] before[d])@ == memory.slots()[j].key@;
                assert(doomed@[d] == before[d]);
            } else {
                assert(doomed@[doomed@.len() - 1]@ == memory.slots()[j].key@);
            }
        }
    }
    let ghost gone = expired_keys(m0, now);
    assert forall|k: Seq<char>| gone.contains(k) implies exists|e: int|
        0 <= e < doomed@.len() && (#[trigger] doomed@[e])@ == k by {
        let j = memory.index_of(k);
        assert(memory.slots()[j].key@ == k);
        assert(memory.slots()[j].value.expired_at(now));
    }
    assert(memory@ =~= m0.remove_keys(
        Set::new(|k: Seq<char>| exists|e: int| 0 <= e < 0 && (#[trigger] doomed@[e])@ == k),
    ));
    let mut d: usize = 0;
    while d < doomed.len()
        invariant
            memory.wf(),
            d <= doomed@.len(),
            gone == expired_keys(m0, now),
            forall|j: int| 0 <= j < doomed@.len() ==> #[trigger] gone.contains(doomed@[j]@),
            forall|k: Seq<char>|
                gone.contains(k) ==> exists|e: int|
                    0 <= e < doomed@.len() && (#[trigger] doomed@[e])@ == k,
            memory@ == m0.remove_keys(
                Set::new(|k: Seq<char>| exists|e: int| 0 <= e < d && (#[trigger] doomed@[e])@ == k),
            ),
        decreases doomed@.len() - d,
    {
        let _ = memory.remove(doomed[d].as_str());
        d = d + 1;
        assert(memory@ =~= m0.remove_keys(
            Set::new(|k: Seq<char>| exists|e: int| 0 <= e < d && (#[trigger] doomed@[e])@ == k),
        ));
    }
    assert(Set::new(|k: Seq<char>| exists|e: int| 0 <= e < d && (#[trigger] doomed@[e])@ == k)
        =~= gone);
}

} // verus!

verus! {

/// A read gives back what the last write of the key stored: a value written
/// at time `written` with time to live `e` reads back at time `now` while
/// `now - written < e`, and as missing from then on; a value written without
/// a time to live always reads back.
pub proof fn law_get_after_set(m: Map<Seq<char>, Val>, k: Seq<char>, v: Val, written: u128, now: u128)
    requires
        v.created_at == written,
    ensures
        get_reply(m.insert(k, v), k, now) == (match v.expiry {
            Some(e) => if now - written >= e {
                null_bulk()
            } else {
                bulk_string(v.val@)
            },
            None => bulk_string(v.val@),
        }),
{
}

/// Writing one key does not change what another key reads.
pub proof fn law_set_other_key(
    m: Map<Seq<char>, Val>,
    k: Seq<char>,
    other: Seq<char>,
    v: Val,
    now: u128,
)
    requires
        k != other,
    ensures
        get_reply(m.insert(other, v), k, now) == get_reply(m, k, now),
{
}

/// A value written without a time to live never expires.
pub proof fn law_no_expiry_lives(v: Val, now: u128)
    requires
        v.expiry is None,
    ensures
        !v.expired_at(now),
{
}

/// A read that finds the value expired drops it, so the key reads as
/// missing from then on.
pub proof fn law_expired_read_drops(m: Map<Seq<char>, Val>, k: Seq<char>, now: u128, later: u128)
    requires
        m.contains_key(k),
        m[k].expired_at(now),
    ensures
        get_reply(m, k, now) == null_bulk(),
        !get_after(m, k, now).contains_key(k),
        get_reply(get_after(m, k, now), k, later) == null_bulk(),
{
}

/// After a purge at time `now` no value left is expired at `now`, and every
/// value that had not expired is still there, unchanged.
pub proof fn law_purge_keeps_live(m: Map<Seq<char>, Val>, now: u128)
    ensures
        forall|k: Seq<char>| #[trigger]
            m.remove_keys(expired_keys(m, now)).contains_key(k) ==> !m.remove_keys(
                expired_keys(m, now),
            )[k].expired_at(now),
        forall|k: Seq<char>|
            #[trigger] m.contains_key(k) && !m[k].expired_at(now) ==> m.remove_keys(
                expired_keys(m, now),
            ).contains_key(k) && m.remove_keys(expired_keys(m, now))[k] == m[k],
{
}

} // verus!

verus! {

/// The id that `XADD` assigns to its entry (see `xa_top`).
pub open spec fn xadd_id(sm: Map<Seq<char>, Stream>, xa: XA) -> (u128, u128) {
    top_pair(xa_top(xa.id@, base_top(sm, xa.stream_key@)))
}

/// The reply to `XADD`: the new id, or the error for an id of `0-0` or one
/// not greater than the stream's newest id.
pub open spec fn xadd_reply(sm: Map<Seq<char>, Stream>, xa: XA) -> Seq<char> {
    let id = xadd_id(sm, xa);
    if id == (0u128, 0u128) {
        "-ERR The ID specified in XADD must be greater than 0-0\r\n"@
    } else if sm.contains_key(xa.stream_key@) && !pair_lt(top_pair(sm[xa.stream_key@].top@), id) {
        "-ERR The ID specified in XADD is equal or smaller than the target stream top item\r\n"@
    } else {
        bulk_string(id_text(id.0, id.1))
    }
}

/// Handles `XADD` received at time `now`: appends the entry to its stream
/// and replies with the new id, or refuses the id and leaves everything as it
/// was. Either way the request `command`, framed as RESP, is given back to be
/// passed on to every replica.
pub fn xadd(
    stream_memory: &mut StreamMemory,
    memory: &mut Memory,
    xa: XA,
    now: u128,
    command: Vec<&str>,
) -> (r: (String, String))
    requires
        old(memory).wf(),
        streams_wf(old(stream_memory)),
        xa.key_vals@.len() % 2 == 0,
        parse_xa_ok(xa.id@, base_top(old(stream_memory)@, xa.stream_key@)),
    ensures
        final(memory).wf(),
        streams_wf(final(stream_memory)),
        r.0@ == xadd_reply(old(stream_memory)@, xa),
        r.1@ == resp_array(views_of(command@)),
        r.0@ == bulk_string(id_text(xadd_id(old(stream_memory)@, xa).0, xadd_id(old(stream_memory)@, xa).1))
            ==> xadd_applied(
            old(memory)@,
            final(memory)@,
            old(stream_memory)@,
            final(stream_memory)@,
            xa.stream_key@,
            xa_top(xa.id@, base_top(old(stream_memory)@, xa.stream_key@)),
            string_views(xa.key_vals@),
            now,
        ),
        r.0@ != bulk_string(id_text(xadd_id(old(stream_memory)@, xa).0, xadd_id(old(stream_memory)@, xa).1))
            ==> final(memory)@ == old(memory)@ && final(stream_memory)@ == old(stream_memory)@,
{
    let propagate = resp_command(command);
    let reply = match stream_add(memory, stream_memory, xa, now) {
        Ok(id) => {
            let text = crate::streams::id_string(id[0], id[1]);
            resp_response(text.as_str())
        },
        Err(e) => match e {
            IdError::NullIdError => {
                proof {
                    lemma_error_texts();
                }
                "-ERR The ID specified in XADD must be greater than 0-0\r\n".to_owned()
            },
            IdError::IdError => {
                proof {
                    lemma_error_texts();
                }
                "-ERR The ID specified in XADD is equal or smaller than the target stream top item\r\n".to_owned()
            },
        },
    };
    (reply, propagate)
}

/// The error replies of `XADD` are not bulk strings.
proof fn lemma_error_texts()
    ensures
        forall|s: Seq<char>|
            "-ERR The ID specified in XADD must be greater than 0-0\r\n"@ != #[trigger] bulk_string(s),
        forall|s: Seq<char>|
            "-ERR The ID specified in XADD is equal or smaller than the target stream top item\r\n"@
                != #[trigger] bulk_string(s),
{
    reveal_strlit("-ERR The ID specified in XADD must be greater than 0-0\r\n");
    reveal_strlit("-ERR The ID specified in XADD is equal or smaller than the target stream top item\r\n");
    assert forall|s: Seq<char>|
        "-ERR The ID specified in XADD must be greater than 0-0\r\n"@ != #[trigger] bulk_string(s) by {
        assert(bulk_string(s)[0] == '$');
    }
    assert forall|s: Seq<char>|
        "-ERR The ID specified in XADD is equal or smaller than the target stream top item\r\n"@
            != #[trigger] bulk_string(s) by {
        assert(bulk_string(s)[0] == '$');
    }
}

/// The reply to `XRANGE key start end`: the entries of the stream whose ids
/// lie between the bounds, in stream order, as a RESP array.
pub fn xrange_action(stream_memory: &StreamMemory, xrange: XRangeData) -> (r: String)
    requires
        stream_memory.wf(),
        stream_memory@.contains_key(xrange.key@),
        ids_parse(stream_memory@[xrange.key@]),
    ensures
        r@ == range_resp(range_view(stream_memory@[xrange.key@].map.slots(), xrange.a, xrange.b)),
{
    let key = xrange.key;
    let a = xrange.a;
    let b = xrange.b;
    match stream_memory.get(key.as_str()) {
        Some(s) => {
            let representation = stream_range(s, a, b);
            representation.resp()
        },
        None => {
            assert(false);
            String::new()
        },
    }
}

/// `XRANGE` lists exactly the entries whose ids lie between the bounds (as
/// a multiset), ordered by id.
pub proof fn law_xrange_ordered(s: Stream, a: (u128, u128), b: (u128, u128))
    ensures
        nid_sorted(range_view(s.map.slots(), a, b)),
        range_view(s.map.slots(), a, b).to_multiset() == in_range_views(s.map.slots(), a, b).to_multiset(),
        forall|k: int|
            0 <= k < range_view(s.map.slots(), a, b).len() ==> !pair_lt(
                (#[trigger] range_view(s.map.slots(), a, b)[k]).0,
                a,
            ) && !pair_lt(b, range_view(s.map.slots(), a, b)[k].0),
{
    let ss = s.map.slots();
    let v = in_range_views(ss, a, b);
    lemma_sort_by_nid(v);
    lemma_in_range_members(ss, a, b);
    let r = range_view(ss, a, b);
    assert forall|k: int| 0 <= k < r.len() implies !pair_lt((#[trigger] r[k]).0, a) && !pair_lt(
        b,
        r[k].0,
    ) by {
        let j = choose|j: int| 0 <= j < v.len() && #[trigger] r[k] == v[j];
        let sl = in_range_slots(ss, a, b)[j];
        assert(v[j] == entry_view(sl));
        assert(entry_in_range(sl.key@, a, b));
    }
}

proof fn lemma_in_range_members(ss: Seq<Slot<Table<Val>>>, a: (u128, u128), b: (u128, u128))
    ensures
        forall|i: int|
            0 <= i < in_range_slots(ss, a, b).len() ==> entry_in_range(
                (#[trigger] in_range_slots(ss, a, b)[i]).key@,
                a,
                b,
            ),
    decreases ss.len(),
{
    if ss.len() > 0 {
        lemma_in_range_members(ss.drop_last(), a, b);
        let r0 = in_range_slots(ss.drop_last(), a, b);
        let r = in_range_slots(ss, a, b);
        assert forall|i: int| 0 <= i < r.len() implies entry_in_range(
            (#[trigger] r[i]).key@,
            a,
            b,
        ) by {
            if i < r0.len() {
                assert(r[i] == r0[i]);
            }
        }
    }
}

} // verus!
