use vstd::prelude::*;
use crate::commands::{id_pair, lemma_id_pair_decimal, parse_id_pair, XA};
use crate::data::{Stream, Val, ValType};
use crate::helpers::{
    bulk_string, crlf, push_bulk, push_resp_array, resp_array, string_views,
};
use crate::number::{decimal, lemma_parse_u128_decimal, parse_u128_range, parse_u128_spec, push_decimal};
use crate::table::{Slot, Table};
use crate::text::{chars_of, push_str, split_by, split_ranges};

verus! {

/// The field/value pairs `kv[0], kv[1]`, ..., of the first `n` pairs, as a
/// map; a later pair wins over an earlier one with the same field.
pub open spec fn pairs_map(kv: Seq<Seq<char>>, n: nat) -> Map<Seq<char>, Seq<char>>
    decreases n,
{
    if n == 0 || kv.len() < 2 * n {
        Map::empty()
    } else {
        pairs_map(kv, (n - 1) as nat).insert(kv[2 * n - 2], kv[2 * n - 1])
    }
}

/// `t` holds the first `n` field/value pairs of `kv`, each as a string value
/// without expiry written at `created_at`.
pub open spec fn fields_from_n(t: Map<Seq<char>, Val>, kv: Seq<Seq<char>>, n: nat, created_at: u128) -> bool {
    &&& t.dom() == pairs_map(kv, n).dom()
    &&& forall|k: Seq<char>| #[trigger]
        t.contains_key(k) ==> {
            &&& t[k].val@ == pairs_map(kv, n)[k]
            &&& t[k].created_at == created_at
            &&& t[k].expiry is None
            &&& t[k].value_type == ValType::STRING
        }
}

/// `t` holds all field/value pairs of `kv` (see `fields_from_n`).
pub open spec fn fields_from(t: Map<Seq<char>, Val>, kv: Seq<Seq<char>>, created_at: u128) -> bool {
    fields_from_n(t, kv, kv.len() / 2, created_at)
}

/// The fields of a new stream entry from the `field value ...` list of `XADD`.
fn build_fields(key_vals: &Vec<String>, created_at: u128) -> (t: Table<Val>)
    requires
        key_vals@.len() % 2 == 0,
    ensures
        t.wf(),
        fields_from(t@, string_views(key_vals@), created_at),
{
    let ghost kv = string_views(key_vals@);
    let n = key_vals.len();
    let mut t: Table<Val> = Table::new();
    let mut i: usize = 0;
    assert(pairs_map(kv, 0) == Map::<Seq<char>, Seq<char>>::empty());
    assert(t@.dom() =~= pairs_map(kv, 0).dom());
    while i < n
        invariant
            n == key_vals@.len(),
            kv == string_views(key_vals@),
            n % 2 == 0,
            i % 2 == 0,
            i <= n,
            t.wf(),
            fields_from_n(t@, kv, (i / 2) as nat, created_at),
        decreases n - i,
    {
        let val = Val {
            val: key_vals[i + 1].clone(),
            created_at: created_at,
            expiry: None,
            value_type: ValType::STRING,
        };
        let ghost v_copy = val;
        let key = key_vals[i].clone();
        assert(kv[i as int] == key@);
        assert(kv[i + 1] == v_copy.val@);
        t.insert(key, val);
        i = i + 2;
        assert(pairs_map(kv, (i / 2) as nat) == pairs_map(kv, ((i - 2) / 2) as nat).insert(
            kv[i - 2],
            kv[i - 1],
        ));
        assert(t@.dom() =~= pairs_map(kv, (i / 2) as nat).dom());
    }
    t
}

/// Every piece reads as a `u128`.
pub open spec fn all_parse(parts: Seq<Seq<char>>) -> bool {
    forall|i: int| 0 <= i < parts.len() ==> #[trigger] parse_u128_spec(parts[i]) is Some
}

/// The numbers the pieces read as.
pub open spec fn parts_values(parts: Seq<Seq<char>>) -> Seq<u128> {
    parts.map_values(|p: Seq<char>| parse_u128_spec(p).unwrap())
}

/// The pieces of an entry id, split on `-`.
pub open spec fn id_parts(id: Seq<char>) -> Seq<Seq<char>> {
    split_by(id, seq!['-'])
}

/// The text of entry id `a-b`.
pub open spec fn id_text(a: u128, b: u128) -> Seq<char> {
    decimal(a as nat) + seq!['-'] + decimal(b as nat)
}

/// The sequence number `<ms>-*` stands for, after the newest id `v_top`:
/// one more than its sequence number in the same millisecond, else 0.
pub open spec fn star_seq(ms: u128, v_top: Seq<u128>) -> nat {
    if ms == v_top[0] {
        (v_top[1] + 1) as nat
    } else {
        0
    }
}

/// The pieces of the id with a `*` sequence number filled in.
pub open spec fn resolved_parts(parts: Seq<Seq<char>>, v_top: Seq<u128>) -> Seq<Seq<char>> {
    if parts.len() >= 2 && parts[1] == seq!['*'] {
        parts.update(1, decimal(star_seq(parse_u128_spec(parts[0]).unwrap(), v_top)))
    } else {
        parts
    }
}

/// The ids `Stream::parse_xa` can read after the newest id `v_top`: at least
/// two `-`-separated numbers, where the second may be `*`.
pub open spec fn parse_xa_ok(id: Seq<char>, v_top: Seq<u128>) -> bool {
    let parts = id_parts(id);
    &&& parts.len() >= 2
    &&& (parts[1] == seq!['*'] ==> {
        &&& parse_u128_spec(parts[0]) is Some
        &&& v_top.len() >= 1
        &&& (parse_u128_spec(parts[0]).unwrap() == v_top[0] ==> v_top.len() >= 2 && v_top[1]
            < u128::MAX)
    })
    &&& all_parse(resolved_parts(parts, v_top))
}

/// The numbers of the id that `Stream::parse_xa` assigns.
pub open spec fn xa_top(id: Seq<char>, v_top: Seq<u128>) -> Seq<u128> {
    parts_values(resolved_parts(id_parts(id), v_top))
}

fn dash() -> (v: Vec<char>)
    ensures
        v@ == seq!['-'],
{
    let mut v = Vec::new();
    v.push('-');
    assert(v@ =~= seq!['-']);
    v
}

/// The text of entry id `a-b`.
pub fn id_string(a: u128, b: u128) -> (s: String)
    ensures
        s@ == id_text(a, b),
{
    let mut s = String::new();
    push_decimal(&mut s, a);
    s.push('-');
    push_decimal(&mut s, b);
    assert(s@ =~= id_text(a, b));
    s
}

impl Stream {
    /// A stream holding one entry, under the id of `XADD` exactly as written,
    /// for a request received at time `now`; `top` holds the id's numbers.
    pub fn from(value: XA, now: u128) -> (r: Stream)
        requires
            all_parse(id_parts(value.id@)),
            value.key_vals@.len() % 2 == 0,
        ensures
            r.map.wf(),
            r.map@.dom() == Set::<Seq<char>>::empty().insert(value.id@),
            r.map@[value.id@].wf(),
            fields_from(r.map@[value.id@]@, string_views(value.key_vals@), now),
            r.created_at == now,
            r.top@ == parts_values(id_parts(value.id@)),
    {
        let created_at = now;
        let chars = chars_of(value.id.as_str());
        let sep = dash();
        let ranges = split_ranges(&chars, &sep);
        let ghost parts = id_parts(value.id@);
        let mut top: Vec<u128> = Vec::new();
        let mut i: usize = 0;
        while i < ranges.len()
            invariant
                chars@ == value.id@,
                parts == id_parts(value.id@),
                all_parse(parts),
                ranges@.len() == parts.len(),
                forall|k: int|
                    0 <= k < ranges@.len() ==> {
                        &&& (#[trigger] ranges@[k]).0 <= ranges@[k].1 <= chars@.len()
                        &&& chars@.subrange(ranges@[k].0 as int, ranges@[k].1 as int) == parts[k]
                    },
                i <= ranges@.len(),
                top@ == parts_values(parts).take(i as int),
            decreases ranges@.len() - i,
        {
            let (f, t) = ranges[i];
            assert(parse_u128_spec(parts[i as int]) is Some);
            let x = match parse_u128_range(&chars, f, t) {
                Some(x) => x,
                None => {
                    assert(false);
                    0
                },
            };
            top.push(x);
            i = i + 1;
            assert(top@ =~= parts_values(parts).take(i as int));
        }
        assert(parts_values(parts).take(parts.len() as int) =~= parts_values(parts));
        let fields = build_fields(&value.key_vals, created_at);
        let ghost fv = fields@;
        let mut map: Table<Table<Val>> = Table::new();
        map.insert(value.id, fields);
        assert(map@.dom() =~= Set::<Seq<char>>::empty().insert(value.id@));
        Stream { map: map, created_at: created_at, top: top }
    }

    /// A stream holding one entry for an `XADD` received at time `now`.
    /// A `*` sequence number becomes one more than the sequence number of
    /// `v_top` when the milliseconds agree, and 0 otherwise; the entry is
    /// stored under the id `<ms>-<seq>` written plainly, and `top` holds the
    /// id's numbers.
    pub fn parse_xa(value: XA, v_top: &Vec<u128>, now: u128) -> (r: Stream)
        requires
            parse_xa_ok(value.id@, v_top@),
            value.key_vals@.len() % 2 == 0,
        ensures
            r.top@ == xa_top(value.id@, v_top@),
            r.top@.len() >= 2,
            r.map.wf(),
            r.map.key_seq() == seq![id_text(r.top@[0], r.top@[1])],
            r.map@.dom() == Set::<Seq<char>>::empty().insert(id_text(r.top@[0], r.top@[1])),
            r.map@[id_text(r.top@[0], r.top@[1])].wf(),
            fields_from(
                r.map@[id_text(r.top@[0], r.top@[1])]@,
                string_views(value.key_vals@),
                now,
            ),
            r.created_at == now,
    {
        let created_at = now;
        let chars = chars_of(value.id.as_str());
        let sep = dash();
        let ranges = split_ranges(&chars, &sep);
        let ghost parts = id_parts(value.id@);
        let ghost rparts = resolved_parts(parts, v_top@);
        let (f1, t1) = ranges[1];
        let star = t1 - f1 == 1 && chars[f1] == '*';
        proof {
            let p1 = chars@.subrange(f1 as int, t1 as int);
            if star {
                assert(p1 =~= seq!['*']);
            } else if p1.len() == 1 {
                assert(p1[0] == chars@[f1 as int]);
            }
            assert(star == (parts[1] == seq!['*']));
        }
        let mut top: Vec<u128> = Vec::new();
        let mut i: usize = 0;
        while i < ranges.len()
            invariant
                chars@ == value.id@,
                parts == id_parts(value.id@),
                rparts == resolved_parts(parts, v_top@),
                parse_xa_ok(value.id@, v_top@),
                star == (parts[1] == seq!['*']),
                ranges@.len() == parts.len(),
                forall|k: int|
                    0 <= k < ranges@.len() ==> {
                        &&& (#[trigger] ranges@[k]).0 <= ranges@[k].1 <= chars@.len()
                        &&& chars@.subrange(ranges@[k].0 as int, ranges@[k].1 as int) == parts[k]
                    },
                i <= ranges@.len(),
                top@ == parts_values(rparts).take(i as int),
            decreases ranges@.len() - i,
        {
            let (f, t) = ranges[i];
            assert(parse_u128_spec(rparts[i as int]) is Some);
            let x: u128;
            if i == 1 && star {
                let (f0, t0) = ranges[0];
                let ms = match parse_u128_range(&chars, f0, t0) {
                    Some(v) => v,
                    None => {
                        assert(false);
                        0
                    },
                };
                if ms == v_top[0] {
                    x = v_top[1] + 1;
                } else {
                    x = 0;
                }
                proof {
                    lemma_parse_u128_decimal(x);
                    assert(rparts[1] == decimal(x as nat));
                }
            } else {
                assert(rparts[i as int] == parts[i as int]);
                x = match parse_u128_range(&chars, f, t) {
                    Some(v) => v,
                    None => {
                        assert(false);
                        0
                    },
                };
            }
            top.push(x);
            i = i + 1;
            assert(top@ =~= parts_values(rparts).take(i as int));
        }
        assert(parts_values(rparts).take(rparts.len() as int) =~= parts_values(rparts));
        let id = id_string(top[0], top[1]);
        let fields = build_fields(&value.key_vals, created_at);
        let mut map: Table<Table<Val>> = Table::new();
        map.insert(id, fields);
        assert(map@.dom() =~= Set::<Seq<char>>::empty().insert(id_text(top@[0], top@[1])));
        assert(map.key_seq() =~= seq![id_text(top@[0], top@[1])]);
        Stream { map: map, created_at: created_at, top: top }
    }
}

} // verus!

verus! {

/// Strict order of entry ids: by milliseconds, then by sequence number.
pub open spec fn pair_lt(x: (u128, u128), y: (u128, u128)) -> bool {
    x.0 < y.0 || (x.0 == y.0 && x.1 < y.1)
}

/// The id of the newest entry, as numbers.
pub open spec fn top_pair(t: Seq<u128>) -> (u128, u128) {
    (t[0], t[1])
}

impl Stream {
    /// A well-formed stream: its entry ids all read as `ms-seq` pairs, are
    /// strictly increasing in the order the entries were added, and the last
    /// of them is the one `top` records.
    pub open spec fn wf(&self) -> bool {
        &&& self.map.wf()
        &&& self.top@.len() >= 2
        &&& forall|i: int|
            0 <= i < self.map.key_seq().len() ==> (#[trigger] id_pair(self.map.key_seq()[i])) is Some
        &&& forall|i: int, j: int|
            0 <= i < j < self.map.key_seq().len() ==> pair_lt(
                id_pair(#[trigger] self.map.key_seq()[i]).unwrap(),
                id_pair(#[trigger] self.map.key_seq()[j]).unwrap(),
            )
        &&& self.map.key_seq().len() > 0 ==> id_pair(self.map.key_seq().last()) == Some(
            top_pair(self.top@),
        )
    }
}

/// All streams are well formed.
pub open spec fn streams_wf(sm: &Table<Stream>) -> bool {
    &&& sm.wf()
    &&& forall|k: Seq<char>| #[trigger] sm@.contains_key(k) ==> sm@[k].wf()
}

/// The newest id of the stream under `k`, or `0-0` when there is none.
pub open spec fn base_top(m: Map<Seq<char>, Stream>, k: Seq<char>) -> Seq<u128> {
    if m.contains_key(k) {
        m[k].top@
    } else {
        seq![0u128, 0u128]
    }
}

/// Why `XADD` refused an id.
#[derive(Debug, Clone, Copy, PartialEq, Eq, Structural)]
pub enum IdError {
    /// The id was `0-0`.
    NullIdError,
    /// The id was not greater than the stream's newest id.
    IdError,
}

fn copy_u128s(v: &Vec<u128>) -> (r: Vec<u128>)
    ensures
        r@ == v@,
{
    let mut r: Vec<u128> = Vec::new();
    let mut i: usize = 0;
    while i < v.len()
        invariant
            i <= v@.len(),
            r@ == v@.take(i as int),
        decreases v@.len() - i,
    {
        r.push(v[i]);
        i = i + 1;
        assert(r@ =~= v@.take(i as int));
    }
    assert(v@.take(v@.len() as int) =~= v@);
    r
}

/// The stores after `XADD` added an entry with id numbers `new_top` and the
/// field/value list `kv` to the stream under `key`: that stream (made when
/// missing) gains the entry last and takes `new_top` as its newest id, and
/// `memory` records `key` as a stream whose value is the new id; the entry's
/// fields, a new stream and the record in `memory` are stamped with `now`.
pub open spec fn xadd_applied(
    m0: Map<Seq<char>, Val>,
    m1: Map<Seq<char>, Val>,
    sm0: Map<Seq<char>, Stream>,
    sm1: Map<Seq<char>, Stream>,
    key: Seq<char>,
    new_top: Seq<u128>,
    kv: Seq<Seq<char>>,
    now: u128,
) -> bool {
    let had = sm0.contains_key(key);
    let s = sm1[key];
    let entry = id_text(new_top[0], new_top[1]);
    &&& sm1 == sm0.insert(key, s)
    &&& s.top@ == new_top
    &&& s.map.key_seq() == (if had {
        sm0[key].map.key_seq()
    } else {
        Seq::empty()
    }).push(entry)
    &&& s.map@ == (if had {
        sm0[key].map@
    } else {
        Map::empty()
    }).insert(entry, s.map@[entry])
    &&& s.map@[entry].wf()
    &&& fields_from(s.map@[entry]@, kv, now)
    &&& s.created_at == (if had {
        sm0[key].created_at
    } else {
        now
    })
    &&& m1 == m0.insert(key, m1[key])
    &&& m1[key].created_at == now
    &&& m1[key].val@ == entry
    &&& m1[key].expiry is None
    &&& m1[key].value_type == ValType::STREAM
}

/// Appends the entry of an `XADD` request received at time `now` to its stream (making the stream
/// when there is none), records the key as a stream in `memory`, and gives
/// the numbers of the new id; refuses `0-0` and ids not greater than the
/// stream's newest id.
#[verifier::rlimit(60)]
pub fn stream_add(memory: &mut Table<Val>, stream_memory: &mut Table<Stream>, xa: XA, now: u128) -> (r: Result<
    Vec<u128>,
    IdError,
>)
    requires
        old(memory).wf(),
        streams_wf(old(stream_memory)),
        xa.key_vals@.len() % 2 == 0,
        parse_xa_ok(xa.id@, base_top(old(stream_memory)@, xa.stream_key@)),
    ensures
        final(memory).wf(),
        streams_wf(final(stream_memory)),
        ({
            let key = xa.stream_key@;
            let had = old(stream_memory)@.contains_key(key);
            let new_top = xa_top(xa.id@, base_top(old(stream_memory)@, key));
            let id = top_pair(new_top);
            match r {
                Err(IdError::NullIdError) => {
                    &&& id == (0u128, 0u128)
                    &&& final(memory)@ == old(memory)@
                    &&& final(stream_memory)@ == old(stream_memory)@
                },
                Err(IdError::IdError) => {
                    &&& id != (0u128, 0u128)
                    &&& had
                    &&& !pair_lt(top_pair(old(stream_memory)@[key].top@), id)
                    &&& final(memory)@ == old(memory)@
                    &&& final(stream_memory)@ == old(stream_memory)@
                },
                Ok(t) => {
                    &&& t@ == new_top
                    &&& id != (0u128, 0u128)
                    &&& had ==> pair_lt(top_pair(old(stream_memory)@[key].top@), id)
                    &&& xadd_applied(
                        old(memory)@,
                        final(memory)@,
                        old(stream_memory)@,
                        final(stream_memory)@,
                        key,
                        new_top,
                        string_views(xa.key_vals@),
                        now,
                    )
                },
            }
        }),
{
    let ghost sm0 = stream_memory@;
    let ghost key_v = xa.stream_key@;
    let ghost kv = string_views(xa.key_vals@);
    let key = xa.stream_key.clone();
    let existing_top: Vec<u128>;
    let had: bool;
    match stream_memory.get(key.as_str()) {
        Some(s) => {
            existing_top = copy_u128s(&s.top);
            had = true;
        },
        None => {
            let mut z: Vec<u128> = Vec::new();
            z.push(0);
            z.push(0);
            assert(z@ =~= seq![0u128, 0u128]);
            existing_top = z;
            had = false;
        },
    }
    assert(existing_top@ == base_top(sm0, key_v));
    let mut fresh = Stream::parse_xa(xa, &existing_top, now);
    let a = fresh.top[0];
    let b = fresh.top[1];
    if a == 0 && b == 0 {
        return Err(IdError::NullIdError);
    }
    if had && !(existing_top[0] < a || (existing_top[0] == a && existing_top[1] < b)) {
        return Err(IdError::IdError);
    }
    let ghost entry = id_text(a, b);
    proof {
        lemma_id_pair_decimal(a, b);
    }
    let top_copy = copy_u128s(&fresh.top);
    let id_str = id_string(a, b);
    let val = Val {
        val: id_string(a, b),
        created_at: fresh.created_at,
        expiry: None,
        value_type: ValType::STREAM,
    };
    let ghost fresh_fields = fresh.map@[entry];
    let ghost created = fresh.created_at;
    assert(fields_from(fresh_fields@, kv, created));
    if had {
        let old_s = stream_memory.remove(key.as_str());
        let mut s = match old_s {
            Some(s) => s,
            None => {
                assert(false);
                return Err(IdError::IdError);
            },
        };
        let ghost s0 = s;
        let fields = match fresh.map.remove(id_str.as_str()) {
            Some(f) => f,
            None => {
                assert(false);
                return Err(IdError::IdError);
            },
        };
        assert(fields == fresh_fields);
        proof {
            assert(s0.wf());
            // every id already in the stream is below the new one
            assert forall|i: int| 0 <= i < s0.map.key_seq().len() implies pair_lt(
                id_pair(#[trigger] s0.map.key_seq()[i]).unwrap(),
                (a, b),
            ) by {
                let last = s0.map.key_seq().len() - 1;
                if i < last {
                    assert(pair_lt(
                        id_pair(s0.map.key_seq()[i]).unwrap(),
                        id_pair(s0.map.key_seq()[last]).unwrap(),
                    ));
                }
            }
            assert(!s0.map.has(entry)) by {
                if s0.map.has(entry) {
                    let i = choose|i: int|
                        0 <= i < s0.map.slots().len() && (#[trigger] s0.map.slots()[i]).key@
                            == entry;
                    assert(s0.map.key_seq()[i] == entry);
                }
            }
        }
        s.map.insert(id_str, fields);
        s.top = fresh.top;
        proof {
            let ks = s.map.key_seq();
            assert(ks == s0.map.key_seq().push(entry));
            assert forall|i: int, j: int| 0 <= i < j < ks.len() implies pair_lt(
                id_pair(#[trigger] ks[i]).unwrap(),
                id_pair(#[trigger] ks[j]).unwrap(),
            ) by {
                if j < ks.len() - 1 {
                    assert(ks[i] == s0.map.key_seq()[i]);
                    assert(ks[j] == s0.map.key_seq()[j]);
                } else {
                    assert(ks[i] == s0.map.key_seq()[i]);
                }
            }
            assert forall|i: int| 0 <= i < ks.len() implies (#[trigger] id_pair(ks[i])) is Some by {
                if i < ks.len() - 1 {
                    assert(ks[i] == s0.map.key_seq()[i]);
                }
            }
            assert(s.wf());
        }
        let ghost s_final = s;
        stream_memory.insert(key.clone(), s);
        proof {
            assert(stream_memory@ =~= sm0.insert(key_v, s_final));
            assert forall|k: Seq<char>| #[trigger] stream_memory@.contains_key(k) implies stream_memory@[k].wf() by {
                if k != key_v {
                    assert(sm0.contains_key(k));
                }
            }
        }
    } else {
        let ghost f0 = fresh;
        assert(f0.map.key_seq() == seq![entry]);
        assert(f0.wf());
        stream_memory.insert(key.clone(), fresh);
        proof {
            assert forall|k: Seq<char>| #[trigger] stream_memory@.contains_key(k) implies stream_memory@[k].wf() by {
                if k != key_v {
                    assert(sm0.contains_key(k));
                }
            }
            assert(f0.map@ =~= Map::<Seq<char>, Table<Val>>::empty().insert(entry, f0.map@[entry]));
            assert(Seq::<Seq<char>>::empty().push(entry) =~= seq![entry]);
        }
    }
    let ghost v_copy = val;
    memory.insert(key, val);
    assert(memory@[key_v] == v_copy);
    proof {
        let s = stream_memory@[key_v];
        assert(s.map@[entry] == fresh_fields);
        assert(fields_from(s.map@[entry]@, kv, created));
        assert(top_copy@ == xa_top(xa.id@, base_top(sm0, key_v)));
        let had_v = sm0.contains_key(key_v);
        assert(had_v == had);
        assert(stream_memory@ == sm0.insert(key_v, s));
        assert(s.map.key_seq() == (if had_v { sm0[key_v].map.key_seq() } else { Seq::<Seq<char>>::empty() }).push(entry));
        assert(s.map@ == (if had_v { sm0[key_v].map@ } else { Map::<Seq<char>, Table<Val>>::empty() }).insert(entry, s.map@[entry]));
        assert(s.top@ == top_copy@);
        assert(had_v ==> pair_lt(top_pair(sm0[key_v].top@), (a, b)));
    }
    Ok(top_copy)
}

} // verus!

verus! {

/// The field/value texts of an entry, in the entry's field order:
/// `field1, value1, field2, value2, ...`.
pub open spec fn fields_flat(fs: Seq<Slot<Val>>) -> Seq<Seq<char>>
    decreases fs.len(),
{
    if fs.len() == 0 {
        Seq::empty()
    } else {
        fields_flat(fs.drop_last()) + seq![fs.last().key@, fs.last().value.val@]
    }
}

/// Whether entry id `id` lies between `a` and `b`, both included.
pub open spec fn entry_in_range(id: Seq<char>, a: (u128, u128), b: (u128, u128)) -> bool {
    match id_pair(id) {
        Some(n) => !pair_lt(n, a) && !pair_lt(b, n),
        None => false,
    }
}

/// The entries whose ids lie between `a` and `b`, in stream order.
pub open spec fn in_range_slots(ss: Seq<Slot<Table<Val>>>, a: (u128, u128), b: (u128, u128)) -> Seq<
    Slot<Table<Val>>,
>
    decreases ss.len(),
{
    if ss.len() == 0 {
        Seq::empty()
    } else if entry_in_range(ss.last().key@, a, b) {
        in_range_slots(ss.drop_last(), a, b).push(ss.last())
    } else {
        in_range_slots(ss.drop_last(), a, b)
    }
}

/// An entry as `XRANGE` reports it: its id as numbers, its id as text and
/// its field/value texts.
pub type EntryView = ((u128, u128), Seq<char>, Seq<Seq<char>>);

/// The view of one stream entry (its id read as `ms-seq`).
pub open spec fn entry_view(sl: Slot<Table<Val>>) -> EntryView {
    (id_pair(sl.key@).unwrap(), sl.key@, fields_flat(sl.value.slots()))
}

/// `x` placed into `s` after every entry whose id is not greater than its own.
pub open spec fn insert_by_nid(s: Seq<EntryView>, x: EntryView) -> Seq<EntryView>
    decreases s.len(),
{
    if s.len() == 0 {
        seq![x]
    } else if pair_lt(x.0, s[0].0) {
        seq![x] + s
    } else {
        seq![s[0]] + insert_by_nid(s.drop_first(), x)
    }
}

/// The entries ordered by id; entries with equal ids keep their order
/// (what the stable `sort_by` gives).
pub open spec fn sort_by_nid(s: Seq<EntryView>) -> Seq<EntryView>
    decreases s.len(),
{
    if s.len() == 0 {
        Seq::empty()
    } else {
        insert_by_nid(sort_by_nid(s.drop_last()), s.last())
    }
}

/// The views of the entries whose ids lie between `a` and `b`, in stream order.
pub open spec fn in_range_views(ss: Seq<Slot<Table<Val>>>, a: (u128, u128), b: (u128, u128)) -> Seq<
    EntryView,
> {
    in_range_slots(ss, a, b).map_values(|sl: Slot<Table<Val>>| entry_view(sl))
}

/// What `XRANGE` reports of a stream's entries between `a` and `b`: those
/// entries, ordered by id.
pub open spec fn range_view(ss: Seq<Slot<Table<Val>>>, a: (u128, u128), b: (u128, u128)) -> Seq<
    EntryView,
> {
    sort_by_nid(in_range_views(ss, a, b))
}

/// Every id of the stream reads as `ms-seq`.
pub open spec fn ids_parse(s: Stream) -> bool {
    forall|i: int| 0 <= i < s.map.key_seq().len() ==> (#[trigger] id_pair(s.map.key_seq()[i])) is Some
}

/// `t` is ordered by id (never a greater id before a smaller one).
pub open spec fn nid_sorted(t: Seq<EntryView>) -> bool {
    forall|i: int, j: int| 0 <= i < j < t.len() ==> !pair_lt((#[trigger] t[j]).0, (#[trigger] t[i]).0)
}

/// Placing `x` where `insert_by_nid` does is inserting it at the first
/// position holding a greater id.
proof fn lemma_insert_at(s: Seq<EntryView>, x: EntryView, p: int)
    requires
        0 <= p <= s.len(),
        forall|j: int| 0 <= j < p ==> !pair_lt(x.0, (#[trigger] s[j]).0),
        p < s.len() ==> pair_lt(x.0, s[p].0),
    ensures
        insert_by_nid(s, x) == s.insert(p, x),
    decreases p,
{
    if p == 0 {
        if s.len() == 0 {
            assert(s.insert(0, x) =~= seq![x]);
        } else {
            assert(s.insert(0, x) =~= seq![x] + s);
        }
    } else {
        assert(!pair_lt(x.0, s[0].0));
        let t = s.drop_first();
        assert forall|j: int| 0 <= j < p - 1 implies !pair_lt(x.0, (#[trigger] t[j]).0) by {
            assert(t[j] == s[j + 1]);
        }
        if p < s.len() {
            assert(t[p - 1] == s[p]);
        }
        lemma_insert_at(t, x, p - 1);
        assert(seq![s[0]] + t.insert(p - 1, x) =~= s.insert(p, x));
    }
}

/// Inserting keeps the entries, adds `x`, and keeps an ordered list ordered.
proof fn lemma_insert_by_nid(s: Seq<EntryView>, x: EntryView)
    ensures
        insert_by_nid(s, x).len() == s.len() + 1,
        insert_by_nid(s, x).to_multiset() == s.to_multiset().insert(x),
        forall|k: int|
            0 <= k < insert_by_nid(s, x).len() ==> #[trigger] insert_by_nid(s, x)[k] == x || exists|
                j: int,
            | 0 <= j < s.len() && insert_by_nid(s, x)[k] == s[j],
        nid_sorted(s) ==> nid_sorted(insert_by_nid(s, x)),
    decreases s.len(),
{
    broadcast use vstd::seq_lib::to_multiset_insert;
    let r = insert_by_nid(s, x);
    if s.len() == 0 {
        assert(seq![x] =~= s.insert(0, x));
    } else if pair_lt(x.0, s[0].0) {
        assert(r =~= s.insert(0, x));
        assert forall|k: int| 0 <= k < r.len() implies #[trigger] r[k] == x || exists|j: int|
            0 <= j < s.len() && r[k] == s[j] by {
            if k > 0 {
                assert(r[k] == s[k - 1]);
            }
        }
        if nid_sorted(s) {
            assert forall|i: int, j: int| 0 <= i < j < r.len() implies !pair_lt(
                (#[trigger] r[j]).0,
                (#[trigger] r[i]).0,
            ) by {
                assert(r[j] == s[j - 1]);
                if i > 0 {
                    assert(r[i] == s[i - 1]);
                } else {
                    assert(!pair_lt(s[j - 1].0, s[0].0));
                }
            }
        }
    } else {
        let t = s.drop_first();
        let rest = insert_by_nid(t, x);
        lemma_insert_by_nid(t, x);
        assert(r == seq![s[0]] + rest);
        assert(r =~= rest.insert(0, s[0]));
        assert(s =~= t.insert(0, s[0]));
        assert(r.to_multiset() =~= s.to_multiset().insert(x));
        assert forall|k: int| 0 <= k < r.len() implies #[trigger] r[k] == x || exists|j: int|
            0 <= j < s.len() && r[k] == s[j] by {
            if k == 0 {
                assert(r[0] == s[0]);
            } else {
                assert(r[k] == rest[k - 1]);
                if rest[k - 1] != x {
                    let j = choose|j: int| 0 <= j < t.len() && rest[k - 1] == t[j];
                    assert(t[j] == s[j + 1]);
                }
            }
        }
        if nid_sorted(s) {
            assert(nid_sorted(t)) by {
                assert forall|i: int, j: int| 0 <= i < j < t.len() implies !pair_lt(
                    (#[trigger] t[j]).0,
                    (#[trigger] t[i]).0,
                ) by {
                    assert(t[i] == s[i + 1] && t[j] == s[j + 1]);
                }
            }
            assert forall|i: int, j: int| 0 <= i < j < r.len() implies !pair_lt(
                (#[trigger] r[j]).0,
                (#[trigger] r[i]).0,
            ) by {
                assert(r[j] == rest[j - 1]);
                if i > 0 {
                    assert(r[i] == rest[i - 1]);
                } else {
                    if rest[j - 1] != x {
                        let m = choose|m: int| 0 <= m < t.len() && rest[j - 1] == t[m];
                        assert(t[m] == s[m + 1]);
                    }
                }
            }
        }
    }
}

/// Sorting by id keeps exactly the entries (as a multiset) and orders them.
pub proof fn lemma_sort_by_nid(s: Seq<EntryView>)
    ensures
        sort_by_nid(s).len() == s.len(),
        sort_by_nid(s).to_multiset() == s.to_multiset(),
        forall|k: int|
            0 <= k < sort_by_nid(s).len() ==> exists|j: int|
                0 <= j < s.len() && #[trigger] sort_by_nid(s)[k] == s[j],
        nid_sorted(sort_by_nid(s)),
    decreases s.len(),
{
    broadcast use vstd::seq_lib::to_multiset_build;
    if s.len() == 0 {
        assert(sort_by_nid(s) =~= s);
    } else {
        let init = s.drop_last();
        lemma_sort_by_nid(init);
        let t = sort_by_nid(init);
        lemma_insert_by_nid(t, s.last());
        assert(s =~= init.push(s.last()));
        let r = sort_by_nid(s);
        assert forall|k: int| 0 <= k < r.len() implies exists|j: int|
            0 <= j < s.len() && #[trigger] r[k] == s[j] by {
            if r[k] == s.last() {
                assert(r[k] == s[s.len() - 1]);
            } else {
                let m = choose|m: int| 0 <= m < t.len() && r[k] == t[m];
                let j = choose|j: int| 0 <= j < init.len() && #[trigger] t[m] == init[j];
                assert(init[j] == s[j]);
            }
        }
    }
}

/// One entry of an `XRANGE` reply: its id as numbers and as text, and its
/// field/value texts.
#[derive(Debug)]
pub struct EntryRepresentation {
    pub nid: (u128, u128),
    pub id: String,
    pub data: Vec<String>,
}

/// The entries of an `XRANGE` reply, in order.
#[derive(Debug)]
pub struct StreamRepresentation {
    pub data: Vec<EntryRepresentation>,
}

/// One entry in RESP: a two-item array of its id and the array of its
/// field/value texts.
pub open spec fn entry_resp(e: EntryView) -> Seq<char> {
    "*2\r\n"@ + bulk_string(e.1) + resp_array(e.2)
}

/// The RESP of the entries, one after the other.
pub open spec fn entries_resp(es: Seq<EntryView>) -> Seq<char>
    decreases es.len(),
{
    if es.len() == 0 {
        Seq::empty()
    } else {
        entries_resp(es.drop_last()) + entry_resp(es.last())
    }
}

/// An `XRANGE` reply: a RESP array of the entries.
pub open spec fn range_resp(es: Seq<EntryView>) -> Seq<char> {
    seq!['*'] + decimal(es.len()) + crlf() + entries_resp(es)
}

impl StreamRepresentation {
    /// The entries as id numbers, id text and field/value texts.
    pub open spec fn entries(&self) -> Seq<EntryView> {
        self.data@.map_values(|e: EntryRepresentation| (e.nid, e.id@, string_views(e.data@)))
    }

    /// No entries.
    pub fn new() -> (r: StreamRepresentation)
        ensures
            r.data@.len() == 0,
    {
        StreamRepresentation { data: Vec::new() }
    }

    /// The reply: a RESP array with, for each entry, the array of its id
    /// and of its field/value texts.
    pub fn resp(&self) -> (r: String)
        ensures
            r@ == range_resp(self.entries()),
    {
        let ghost es = self.entries();
        let n = self.data.len();
        let mut out = String::new();
        out.push('*');
        push_decimal(&mut out, n as u128);
        out.push('\r');
        out.push('\n');
        let ghost head = out@;
        let mut i: usize = 0;
        while i < n
            invariant
                n == self.data@.len(),
                es == self.entries(),
                i <= n,
                out@ == head + entries_resp(es.take(i as int)),
            decreases n - i,
        {
            let e = &self.data[i];
            let ghost before = out@;
            push_str(&mut out, "*2\r\n");
            push_bulk(&mut out, e.id.as_str());
            push_resp_array(&mut out, &e.data);
            proof {
                assert(es.take(i + 1).drop_last() =~= es.take(i as int));
                assert(es[i as int] == (e.nid, e.id@, string_views(e.data@)));
                assert(out@ =~= head + entries_resp(es.take(i + 1)));
            }
            i = i + 1;
        }
        assert(es.take(n as int) =~= es);
        assert(out@ =~= range_resp(es));
        out
    }
}

/// The numbers of an entry id (see `id_pair`).
pub fn get_time(id: &str) -> (r: (u128, u128))
    requires
        id_pair(id@) is Some,
    ensures
        Some(r) == id_pair(id@),
{
    match parse_id_pair(id) {
        Some(p) => p,
        None => {
            assert(false);
            (0, 0)
        },
    }
}

/// The field/value texts of an entry.
fn flatten_fields(t: &Table<Val>) -> (r: Vec<String>)
    ensures
        string_views(r@) == fields_flat(t.slots()),
{
    let n = t.len();
    let mut data: Vec<String> = Vec::new();
    let mut j: usize = 0;
    while j < n
        invariant
            n == t.slots().len(),
            j <= n,
            string_views(data@) == fields_flat(t.slots().take(j as int)),
        decreases n - j,
    {
        let k = t.key_at(j).clone();
        let v = t.value_at(j).val.clone();
        data.push(k);
        data.push(v);
        proof {
            assert(t.slots().take(j + 1).drop_last() =~= t.slots().take(j as int));
            assert(string_views(data@) =~= fields_flat(t.slots().take(j + 1)));
        }
        j = j + 1;
    }
    assert(t.slots().take(n as int) =~= t.slots());
    data
}

/// The entries of a stream whose ids lie between `a` and `b`, ordered by id
/// (entries with equal ids in stream order).
pub fn stream_range(s: &Stream, a: (u128, u128), b: (u128, u128)) -> (r: StreamRepresentation)
    requires
        ids_parse(*s),
    ensures
        r.entries() == range_view(s.map.slots(), a, b),
{
    let ghost ss = s.map.slots();
    let n = s.map.len();
    let mut representation = StreamRepresentation::new();
    let mut i: usize = 0;
    assert(representation.entries() =~= range_view(ss.take(0), a, b));
    while i < n
        invariant
            ids_parse(*s),
            ss == s.map.slots(),
            n == ss.len(),
            i <= n,
            representation.entries() == range_view(ss.take(i as int), a, b),
        decreases n - i,
    {
        let id = s.map.key_at(i);
        assert(s.map.key_seq()[i as int] == id@);
        let nid = get_time(id.as_str());
        proof {
            assert(ss.take(i + 1).drop_last() =~= ss.take(i as int));
            assert(ss.take(i + 1).last() == ss[i as int]);
        }
        if !(nid.0 < a.0 || (nid.0 == a.0 && nid.1 < a.1)) && !(b.0 < nid.0 || (b.0 == nid.0
            && b.1 < nid.1)) {
            let entry = s.map.value_at(i);
            let data = flatten_fields(entry);
            let ghost before = representation.entries();
            let ghost x = entry_view(ss[i as int]);
            let mut p: usize = 0;
            while p < representation.data.len() && !(nid.0 < representation.data[p].nid.0 || (nid.0
                == representation.data[p].nid.0 && nid.1 < representation.data[p].nid.1))
                invariant
                    before == representation.entries(),
                    x.0 == nid,
                    p <= representation.data@.len(),
                    forall|j: int| 0 <= j < p ==> !pair_lt(x.0, (#[trigger] before[j]).0),
                decreases representation.data@.len() - p,
            {
                p = p + 1;
            }
            proof {
                lemma_insert_at(before, x, p as int);
            }
            representation.data.insert(p, EntryRepresentation { nid: nid, id: id.clone(), data: data });
            proof {
                assert(representation.entries() =~= before.insert(p as int, x));
                let f = in_range_slots(ss.take(i as int), a, b);
                assert(in_range_slots(ss.take(i + 1), a, b) == f.push(ss[i as int]));
                assert(in_range_views(ss.take(i + 1), a, b) =~= in_range_views(ss.take(i as int), a, b).push(x));
                assert(in_range_views(ss.take(i + 1), a, b).drop_last() =~= in_range_views(ss.take(i as int), a, b));
                assert(representation.entries() =~= range_view(ss.take(i + 1), a, b));
            }
        } else {
            assert(range_view(ss.take(i + 1), a, b) =~= range_view(ss.take(i as int), a, b));
        }
        i = i + 1;
    }
    assert(ss.take(n as int) =~= ss);
    representation
}

} // verus!

verus! {

/// The field list of an entry holds every field with its value, in the
/// entry's field order: twice as many items as fields, field `i` at position
/// `2i` and its value at `2i + 1`.
pub proof fn law_fields_flat(fs: Seq<Slot<Val>>)
    ensures
        fields_flat(fs).len() == 2 * fs.len(),
        forall|i: int|
            0 <= i < fs.len() ==> fields_flat(fs)[2 * i] == (#[trigger] fs[i]).key@ && fields_flat(
                fs,
            )[2 * i + 1] == fs[i].value.val@,
    decreases fs.len(),
{
    if fs.len() > 0 {
        let init = fs.drop_last();
        law_fields_flat(init);
        assert forall|i: int| 0 <= i < fs.len() implies fields_flat(fs)[2 * i] == (
        #[trigger] fs[i]).key@ && fields_flat(fs)[2 * i + 1] == fs[i].value.val@ by {
            if i < fs.len() - 1 {
                assert(init[i] == fs[i]);
            }
        }
    }
}

/// `XRANGE` reports each listed entry with all of its fields and values.
pub proof fn law_entry_view_fields(sl: Slot<Table<Val>>)
    ensures
        entry_view(sl).1 == sl.key@,
        entry_view(sl).2.len() == 2 * sl.value.slots().len(),
        forall|i: int|
            0 <= i < sl.value.slots().len() ==> entry_view(sl).2[2 * i] == (
            #[trigger] sl.value.slots()[i]).key@ && entry_view(sl).2[2 * i + 1]
                == sl.value.slots()[i].value.val@,
{
    law_fields_flat(sl.value.slots());
}

} // verus!
