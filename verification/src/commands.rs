use vstd::prelude::*;
use crate::helpers::{loose_eq, views_of};
use crate::number::{parse_i32, parse_u128, parse_u128_range, parse_u128_spec, parse_i32_spec};
use crate::text::{ascii_lower, chars_of, split_by, split_ranges, str_equal};

verus! {

/// A request understood by the server.
#[derive(Debug)]
pub enum Command {
    Echo(String),
    Ping,
    SetKey(SetArgs),
    Get(String),
    Info(Option<String>),
    ReplConf(ReplConfData),
    PSYNC,
    Type(String),
    XAdd(XA),
    Xrange(XRangeData),
    Null,
}

/// `SET key value [PX milliseconds]`.
#[derive(Debug)]
pub struct SetArgs {
    pub key: String,
    pub val: String,
    pub expiry: Option<u128>,
}

/// `ascii_lower(s) == "px"`: the `PX` option, in any letter case.
pub open spec fn is_px(s: Seq<char>) -> bool {
    ascii_lower(s) == seq!['p', 'x']
}

/// The arguments of `SET` that `SetArgs::from` can read: a key and a value, and a
/// number argument after a `PX` option.
pub open spec fn set_args_ok(value: Seq<Seq<char>>) -> bool {
    &&& value.len() >= 3
    &&& (value.len() > 3 && is_px(value[3]) ==> value.len() >= 5)
}

/// The expiry that `SET` arguments ask for: the number after `PX` when it
/// reads as a `u128`, and none otherwise.
pub open spec fn set_expiry(value: Seq<Seq<char>>) -> Option<u128> {
    if value.len() > 3 && is_px(value[3]) {
        parse_u128_spec(value[4])
    } else {
        None
    }
}

pub proof fn lemma_px_literal()
    ensures
        ascii_lower("px"@) == seq!['p', 'x'],
{
    reveal_strlit("px");
    assert(ascii_lower("px"@) =~= seq!['p', 'x']);
}

impl SetArgs {
    /// Reads `SET key value [px ms]` (the command name first).
    pub fn from(value: Vec<&str>) -> (r: SetArgs)
        requires
            set_args_ok(views_of(value@)),
        ensures
            r.key@ == value@[1]@,
            r.val@ == value@[2]@,
            r.expiry == set_expiry(views_of(value@)),
    {
        let key = value[1].to_owned();
        let val = value[2].to_owned();
        let mut expiry: Option<u128> = None;
        if value.len() > 3 {
            let parameter = value[3];
            proof {
                lemma_px_literal();
            }
            if loose_eq(parameter, "px") {
                match parse_u128(value[4]) {
                    Some(v) => {
                        expiry = Some(v);
                    },
                    None => {},
                }
            }
        }
        SetArgs { key: key, val: val, expiry: expiry }
    }
}

/// `XADD stream_key id field value ...`.
#[derive(Debug, Clone)]
pub struct XA {
    pub stream_key: String,
    pub id: String,
    pub key_vals: Vec<String>,
}

impl XA {
    /// Reads `XADD key id field value ...` (the command name first).
    pub fn from(value: Vec<&str>) -> (r: XA)
        requires
            value@.len() >= 3,
        ensures
            r.stream_key@ == value@[1]@,
            r.id@ == value@[2]@,
            r.key_vals@.len() == value@.len() - 3,
            forall|i: int| 0 <= i < r.key_vals@.len() ==> (#[trigger] r.key_vals@[i])@ == value@[i + 3]@,
    {
        let l = value.len();
        let stream_key = value[1].to_owned();
        let id = value[2].to_owned();
        let mut key_vals: Vec<String> = Vec::new();
        let mut i: usize = 3;
        while i < l
            invariant
                l == value@.len(),
                3 <= i <= l,
                key_vals@.len() == i - 3,
                forall|j: int| 0 <= j < key_vals@.len() ==> (#[trigger] key_vals@[j])@ == value@[j + 3]@,
            decreases l - i,
        {
            key_vals.push(value[i].to_owned());
            i = i + 1;
        }
        XA { stream_key: stream_key, id: id, key_vals: key_vals }
    }
}

/// `REPLCONF listening-port <port>` (or another `REPLCONF` option).
#[derive(Debug)]
pub struct ReplConfData {
    pub port: Option<i32>,
}

/// The arguments of `REPLCONF` that `ReplConfData::from` can read: an option
/// and its value, and a port number after `listening-port`.
pub open spec fn replconf_args_ok(value: Seq<Seq<char>>) -> bool {
    &&& value.len() >= 3
    &&& (value[1] == "listening-port"@ ==> parse_i32_spec(value[2]) is Some)
}

impl ReplConfData {
    /// Reads `REPLCONF option value` (the command name first); only the
    /// `listening-port` option carries a port.
    pub fn from(value: Vec<&str>) -> (r: ReplConfData)
        requires
            replconf_args_ok(views_of(value@)),
        ensures
            r.port == (if value@[1]@ == "listening-port"@ {
                parse_i32_spec(value@[2]@)
            } else {
                None
            }),
    {
        let argument = value[1];
        if str_equal(argument, "listening-port") {
            ReplConfData { port: parse_i32(value[2]) }
        } else {
            ReplConfData { port: None }
        }
    }
}

/// `XRANGE key start end`.
#[derive(Debug)]
pub struct XRangeData {
    pub key: String,
    pub a: (u128, u128),
    pub b: (u128, u128),
}

/// An entry id `ms-seq` as `XRANGE` reads it: the text split on `-`; with
/// exactly two pieces both are numbers, otherwise the first piece is the
/// number of milliseconds and the sequence number is 0.
pub open spec fn id_pair(s: Seq<char>) -> Option<(u128, u128)> {
    let parts = split_by(s, seq!['-']);
    if parts.len() == 2 {
        match (parse_u128_spec(parts[0]), parse_u128_spec(parts[1])) {
            (Some(x), Some(y)) => Some((x, y)),
            _ => None,
        }
    } else {
        match parse_u128_spec(parts[0]) {
            Some(x) => Some((x, 0)),
            None => None,
        }
    }
}

/// The lower bound of `XRANGE`: `-` is the smallest id.
pub open spec fn range_start(s: Seq<char>) -> Option<(u128, u128)> {
    if s == "-"@ { Some((0, 0)) } else { id_pair(s) }
}

/// The upper bound of `XRANGE`: `+` is the largest id.
pub open spec fn range_end(s: Seq<char>) -> Option<(u128, u128)> {
    if s == "+"@ { Some((u128::MAX, u128::MAX)) } else { id_pair(s) }
}

/// Reads an entry id as `id_pair` describes.
pub fn parse_id_pair(s: &str) -> (r: Option<(u128, u128)>)
    ensures
        r == id_pair(s@),
{
    let v = chars_of(s);
    let mut sep: Vec<char> = Vec::new();
    sep.push('-');
    assert(sep@ =~= seq!['-']);
    let parts = split_ranges(&v, &sep);
    proof {
        crate::text::lemma_split_scan_nonempty(s@, seq!['-'], 0, 0);
    }
    let (f0, t0) = parts[0];
    if parts.len() == 2 {
        let (f1, t1) = parts[1];
        match (parse_u128_range(&v, f0, t0), parse_u128_range(&v, f1, t1)) {
            (Some(x), Some(y)) => Some((x, y)),
            _ => None,
        }
    } else {
        match parse_u128_range(&v, f0, t0) {
            Some(x) => Some((x, 0)),
            None => None,
        }
    }
}

impl XRangeData {
    /// Reads `XRANGE key start end` (the command name first).
    pub fn from(value: Vec<&str>) -> (r: XRangeData)
        requires
            value@.len() >= 4,
            range_start(value@[2]@) is Some,
            range_end(value@[3]@) is Some,
        ensures
            r.key@ == value@[1]@,
            Some(r.a) == range_start(value@[2]@),
            Some(r.b) == range_end(value@[3]@),
    {
        let key = value[1];
        let xraw = value[2];
        let yraw = value[3];
        let a: (u128, u128);
        let b: (u128, u128);
        if str_equal(xraw, "-") {
            a = (0, 0);
        } else {
            match parse_id_pair(xraw) {
                Some(p) => {
                    a = p;
                },
                None => {
                    a = (0, 0);
                },
            }
        }
        if str_equal(yraw, "+") {
            b = (u128::MAX, u128::MAX);
        } else {
            match parse_id_pair(yraw) {
                Some(p) => {
                    b = p;
                },
                None => {
                    b = (0, 0);
                },
            }
        }
        XRangeData { key: key.to_owned(), a: a, b: b }
    }
}

} // verus!

verus! {

/// An id written as `<ms>-<seq>` reads back as the pair of numbers.
pub proof fn lemma_id_pair_decimal(a: u128, b: u128)
    ensures
        id_pair(crate::number::decimal(a as nat) + seq!['-'] + crate::number::decimal(b as nat))
            == Some((a, b)),
{
    let da = crate::number::decimal(a as nat);
    let db = crate::number::decimal(b as nat);
    crate::number::lemma_decimal_roundtrip(a as nat);
    crate::number::lemma_decimal_roundtrip(b as nat);
    crate::number::lemma_parse_u128_decimal(a);
    crate::number::lemma_parse_u128_decimal(b);
    assert forall|j: int| 0 <= j < da.len() implies #[trigger] da[j] != '-' by {
        assert(crate::number::is_digit(da[j]));
    }
    assert forall|j: int| 0 <= j < db.len() implies #[trigger] db[j] != '-' by {
        assert(crate::number::is_digit(db[j]));
    }
    crate::text::lemma_split_char(da, '-', db);
    crate::text::lemma_split_char(db, '-', Seq::empty());
    assert(split_by(da + seq!['-'] + db, seq!['-']) =~= seq![da, db]);
}

} // verus!
