use vstd::prelude::*;
use vstd::utf8::encode_utf8;
use crate::data::{default_master_host, default_replication_id, Config};
use crate::number::{decimal, parse_i32, parse_i32_spec, push_decimal};
use crate::commands::{
    lemma_px_literal, replconf_args_ok, set_args_ok, set_expiry, Command, ReplConfData, SetArgs,
};
use crate::text::{
    ascii_lower, chars_of, lemma_scan_shift, lemma_scan_to_sep, push_str, split_by, split_ranges, str_equal, to_ascii_lowercase,
};

verus! {

/// The RESP line terminator.
pub open spec fn crlf() -> Seq<char> {
    seq!['\r', '\n']
}

/// `str::len` of a string with these characters: its UTF-8 length.
pub open spec fn byte_len(s: Seq<char>) -> nat {
    (encode_utf8(s).len() as usize) as nat
}

/// A RESP bulk string: `$<byte length>\r\n<message>\r\n`.
pub open spec fn bulk_string(m: Seq<char>) -> Seq<char> {
    seq!['$'] + decimal(byte_len(m)) + crlf() + m + crlf()
}

/// The RESP bulk strings of all items, one after the other.
pub open spec fn bulk_strings(items: Seq<Seq<char>>) -> Seq<char>
    decreases items.len(),
{
    if items.len() == 0 {
        Seq::empty()
    } else {
        bulk_strings(items.drop_last()) + bulk_string(items.last())
    }
}

/// A RESP array of bulk strings: `*<count>\r\n` followed by each item.
pub open spec fn resp_array(items: Seq<Seq<char>>) -> Seq<char> {
    seq!['*'] + decimal(items.len()) + crlf() + bulk_strings(items)
}

/// The items of `m` at positions `start`, `start + 2`, `start + 4`, ...
pub open spec fn every_other(m: Seq<Seq<char>>, start: nat) -> Seq<Seq<char>> {
    let count: nat = if start < m.len() { ((m.len() - start + 1) / 2) as nat } else { 0 };
    Seq::new(count, |k: int| m[start + 2 * k])
}

/// What `parse_array` returns: the `\r\n`-separated pieces of the message
/// from `start` on, skipping every second one.
pub open spec fn parse_array_spec(message: Seq<char>, start: nat) -> Seq<Seq<char>> {
    every_other(split_by(message, crlf()), start)
}

/// The views of a list of string slices.
pub open spec fn views_of(v: Seq<&str>) -> Seq<Seq<char>> {
    v.map_values(|s: &str| s@)
}

fn crlf_chars() -> (v: Vec<char>)
    ensures
        v@ == crlf(),
{
    let mut v = Vec::new();
    v.push('\r');
    v.push('\n');
    assert(v@ =~= crlf());
    v
}

/// Appends a bulk string holding `message` to `out`.
pub fn push_bulk(out: &mut String, message: &str)
    ensures
        final(out)@ == old(out)@ + bulk_string(message@),
{
    let l = message.len();
    out.push('$');
    push_decimal(out, l as u128);
    out.push('\r');
    out.push('\n');
    push_str(out, message);
    out.push('\r');
    out.push('\n');
    assert(final(out)@ =~= old(out)@ + bulk_string(message@));
}

/// Frames `message` as a RESP bulk string.
pub fn resp_response(message: &str) -> (r: String)
    ensures
        r@ == bulk_string(message@),
{
    let mut r = String::new();
    push_bulk(&mut r, message);
    assert(r@ =~= bulk_string(message@));
    r
}

/// Splits a RESP message on `\r\n` and keeps the pieces at positions
/// `start` (2 when not given), `start + 2`, ...: for a RESP array of bulk
/// strings read from position 2 these are the strings themselves.
pub fn parse_array<'a>(message: &'a str, start: Option<usize>) -> (r: Vec<&'a str>)
    ensures
        views_of(r@) == parse_array_spec(
            message@,
            match start {
                Some(s) => s as nat,
                None => 2,
            },
        ),
{
    let start = match start {
        Some(s) => s,
        None => 2,
    };
    let chars = chars_of(message);
    let sep = crlf_chars();
    let ranges = split_ranges(&chars, &sep);
    let ghost m = split_by(message@, crlf());
    let mut res: Vec<&'a str> = Vec::new();
    let mut i = start;
    while i < ranges.len()
        invariant
            chars@ == message@,
            m == split_by(message@, crlf()),
            ranges@.len() == m.len(),
            forall|k: int|
                0 <= k < ranges@.len() ==> {
                    &&& (#[trigger] ranges@[k]).0 <= ranges@[k].1 <= message@.len()
                    &&& message@.subrange(ranges@[k].0 as int, ranges@[k].1 as int) == m[k]
                },
            start <= i,
            i < ranges@.len() ==> (i - start) % 2 == 0 && res@.len() == (i - start) / 2,
            forall|k: int| 0 <= k < res@.len() ==> (#[trigger] res@[k])@ == m[start + 2 * k],
            ranges@.len() <= i ==> res@.len() == every_other(m, start as nat).len(),
        decreases ranges@.len() - i,
    {
        let (from, to) = ranges[i];
        let piece = message.substring_char(from, to);
        res.push(piece);
        if ranges.len() - i <= 2 {
            i = ranges.len();
        } else {
            i = i + 2;
        }
    }
    assert(views_of(res@) =~= every_other(m, start as nat));
    res
}

/// Frames a command as a RESP array of bulk strings.
pub fn resp_command(command: Vec<&str>) -> (r: String)
    ensures
        r@ == resp_array(views_of(command@)),
{
    let l = command.len();
    let mut result = String::new();
    result.push('*');
    push_decimal(&mut result, l as u128);
    result.push('\r');
    result.push('\n');
    let ghost items = views_of(command@);
    let ghost head = result@;
    let mut i: usize = 0;
    while i < l
        invariant
            l == command@.len(),
            items == views_of(command@),
            i <= l,
            result@ == head + bulk_strings(items.take(i as int)),
        decreases l - i,
    {
        push_bulk(&mut result, command[i]);
        proof {
            assert(items.take(i + 1).drop_last() =~= items.take(i as int));
        }
        i = i + 1;
    }
    assert(items.take(l as int) =~= items);
    assert(result@ =~= resp_array(items));
    result
}

/// Appends a RESP array of bulk strings holding `items` to `out`.
pub fn push_resp_array(out: &mut String, items: &Vec<String>)
    ensures
        final(out)@ == old(out)@ + resp_array(string_views(items@)),
{
    let l = items.len();
    out.push('*');
    push_decimal(out, l as u128);
    out.push('\r');
    out.push('\n');
    let ghost v = string_views(items@);
    let ghost head = out@;
    let mut i: usize = 0;
    while i < l
        invariant
            l == items@.len(),
            v == string_views(items@),
            i <= l,
            out@ == head + bulk_strings(v.take(i as int)),
        decreases l - i,
    {
        push_bulk(out, items[i].as_str());
        proof {
            assert(v.take(i + 1).drop_last() =~= v.take(i as int));
        }
        i = i + 1;
    }
    assert(v.take(l as int) =~= v);
    assert(out@ =~= old(out)@ + resp_array(v));
}

/// Case-insensitive (ASCII) comparison of two string slices.
pub fn loose_eq(a: &str, b: &str) -> (r: bool)
    ensures
        r == (ascii_lower(a@) == ascii_lower(b@)),
{
    let x = to_ascii_lowercase(a);
    let y = to_ascii_lowercase(b);
    str_equal(x.as_str(), y.as_str())
}

} // verus!

verus! {

/// Whether a byte is a hexadecimal digit (either case).
pub open spec fn is_hex_byte(b: u8) -> bool {
    (48 <= b && b <= 57) || (97 <= b && b <= 102) || (65 <= b && b <= 70)
}

/// The value of a hexadecimal digit byte.
pub open spec fn hex_value(b: u8) -> u8 {
    if 48 <= b && b <= 57 {
        (b - 48) as u8
    } else if 97 <= b && b <= 102 {
        (b - 87) as u8
    } else {
        (b - 55) as u8
    }
}

/// `u8::from_str_radix` in base 16 on a two-byte text: two hex digits,
/// or a `+` followed by one hex digit.
pub open spec fn hex_pair(b0: u8, b1: u8) -> Option<u8> {
    if b0 == 43 && is_hex_byte(b1) {
        Some(hex_value(b1))
    } else if is_hex_byte(b0) && is_hex_byte(b1) {
        Some((hex_value(b0) * 16 + hex_value(b1)) as u8)
    } else {
        None
    }
}

/// Decodes the bytes pair by pair; `None` as soon as one pair is not valid.
pub open spec fn hex_decode(b: Seq<u8>) -> Option<Seq<u8>>
    decreases b.len(),
{
    if b.len() < 2 {
        if b.len() == 0 { Some(Seq::empty()) } else { None }
    } else {
        match (hex_pair(b[0], b[1]), hex_decode(b.skip(2))) {
            (Some(x), Some(rest)) => Some(seq![x] + rest),
            _ => None,
        }
    }
}

fn hex_value_exec(b: u8) -> (v: u8)
    requires
        is_hex_byte(b),
    ensures
        v == hex_value(b),
        v < 16,
{
    if 48 <= b && b <= 57 {
        b - 48
    } else if 97 <= b && b <= 102 {
        b - 87
    } else {
        b - 55
    }
}

fn is_hex_byte_exec(b: u8) -> (r: bool)
    ensures
        r == is_hex_byte(b),
{
    (48 <= b && b <= 57) || (97 <= b && b <= 102) || (65 <= b && b <= 70)
}

/// A text of odd length does not decode.
proof fn lemma_hex_decode_odd(b: Seq<u8>)
    requires
        b.len() % 2 != 0,
    ensures
        hex_decode(b) is None,
    decreases b.len(),
{
    if b.len() >= 2 {
        lemma_hex_decode_odd(b.skip(2));
    }
}

/// Decodes a text of hexadecimal digit pairs into bytes; `None` when the
/// byte length is odd or some pair is not a base-16 number.
pub fn hex_to_binary(hex: &str) -> (r: Option<Vec<u8>>)
    ensures
        match r {
            Some(v) => encode_utf8(hex@).len() % 2 == 0 && hex_decode(encode_utf8(hex@)) == Some(
                v@,
            ),
            None => hex_decode(encode_utf8(hex@)) is None,
        },
{
    let b = hex.as_bytes();
    let n = b.len();
    if n % 2 != 0 {
        proof {
            lemma_hex_decode_odd(b@);
        }
        return None;
    }
    let mut out: Vec<u8> = Vec::new();
    let mut i: usize = 0;
    assert(b@.skip(0) =~= b@);
    assert(hex_decode(b@) is Some ==> out@ + hex_decode(b@)->0 =~= hex_decode(b@)->0);
    while i < n
        invariant
            b@ == encode_utf8(hex@),
            n == b@.len(),
            n % 2 == 0,
            i % 2 == 0,
            i <= n,
            out@.len() * 2 == i,
            hex_decode(b@) is Some <==> hex_decode(b@.skip(i as int)) is Some,
            hex_decode(b@) is Some ==> hex_decode(b@)->0 == out@ + hex_decode(
                b@.skip(i as int),
            )->0,
        decreases n - i,
    {
        let b0 = b[i];
        let b1 = b[i + 1];
        proof {
            assert(b@.skip(i as int).skip(2) =~= b@.skip(i + 2));
            assert(b@.skip(i as int)[0] == b0);
            assert(b@.skip(i as int)[1] == b1);
        }
        let x: u8;
        if b0 == 43 && is_hex_byte_exec(b1) {
            x = hex_value_exec(b1);
        } else if is_hex_byte_exec(b0) && is_hex_byte_exec(b1) {
            let h = hex_value_exec(b0);
            let l = hex_value_exec(b1);
            x = h * 16 + l;
        } else {
            return None;
        }
        assert(hex_pair(b0, b1) == Some(x));
        out.push(x);
        i = i + 2;
        proof {
            if hex_decode(b@) is Some {
                assert(out@ + hex_decode(b@.skip(i as int))->0 =~= out@.drop_last() + (seq![x]
                    + hex_decode(b@.skip(i as int))->0));
            }
        }
    }
    assert(b@.skip(n as int) =~= Seq::<u8>::empty());
    assert(out@ + Seq::<u8>::empty() =~= out@);
    Some(out)
}

/// Moves all bytes of `b` to the end of `a`.
pub fn concat_u8(a: &mut Vec<u8>, b: &mut Vec<u8>)
    ensures
        final(a)@ == old(a)@ + old(b)@,
        final(b)@ == Seq::<u8>::empty(),
{
    a.append(b);
}

} // verus!

verus! {

/// `s` contains no `\r\n`.
pub open spec fn no_crlf(s: Seq<char>) -> bool {
    forall|j: int| 0 <= j < s.len() - 1 ==> !(#[trigger] s[j] == '\r' && s[j + 1] == '\n')
}

/// The header line of a bulk string: `$<byte length>`.
pub open spec fn bulk_header(m: Seq<char>) -> Seq<char> {
    seq!['$'] + decimal(byte_len(m))
}

/// The pieces of a RESP array's items when split on `\r\n`:
/// header, item, header, item, ...
pub open spec fn bulk_pieces(items: Seq<Seq<char>>) -> Seq<Seq<char>> {
    Seq::new(
        2 * items.len(),
        |j: int| if j % 2 == 0 { bulk_header(items[j / 2]) } else { items[j / 2] },
    )
}

/// Splitting `p + "\r\n" + r` on `\r\n` gives `p` and then the pieces of `r`,
/// when `p` itself holds no `\r\n`.
pub proof fn lemma_split_front(p: Seq<char>, r: Seq<char>)
    requires
        no_crlf(p),
    ensures
        split_by(p + crlf() + r, crlf()) == seq![p] + split_by(r, crlf()),
{
    let c = crlf();
    let s = p + c + r;
    let e = p.len() as int;
    assert(s.subrange(e, e + 2) =~= c);
    assert forall|j: int| 0 <= j < e implies #[trigger] s.subrange(j, j + 2) != c by {
        if s.subrange(j, j + 2) == c {
            assert(s[j] == s.subrange(j, j + 2)[0]);
            assert(s[j + 1] == s.subrange(j, j + 2)[1]);
            if j < e - 1 {
                assert(p[j] == '\r' && p[j + 1] == '\n');
            } else {
                assert(s[j + 1] == '\r');
            }
        }
    }
    lemma_scan_to_sep(s, c, 0, 0, e);
    assert(s.subrange(0, e) =~= p);
    lemma_scan_shift(s, c, e + 2, e + 2, e + 2);
    assert(s.skip(e + 2) =~= r);
}

proof fn lemma_split_empty()
    ensures
        split_by(Seq::<char>::empty(), crlf()) == seq![Seq::<char>::empty()],
{
    assert(Seq::<char>::empty().subrange(0, 0) =~= Seq::<char>::empty());
}

proof fn lemma_bulk_header_no_crlf(m: Seq<char>)
    ensures
        no_crlf(bulk_header(m)),
{
    let h = bulk_header(m);
    crate::number::lemma_decimal_roundtrip(byte_len(m));
    assert forall|j: int| 0 <= j < h.len() - 1 implies !(#[trigger] h[j] == '\r' && h[j + 1]
        == '\n') by {
        if j == 0 {
        } else {
            assert(h[j] == decimal(byte_len(m))[j - 1]);
            assert(crate::number::is_digit(decimal(byte_len(m))[j - 1]));
        }
    }
}

proof fn lemma_bulk_strings_front(items: Seq<Seq<char>>)
    requires
        items.len() > 0,
    ensures
        bulk_strings(items) == bulk_string(items[0]) + bulk_strings(items.drop_first()),
    decreases items.len(),
{
    if items.len() == 1 {
        assert(items.drop_last() =~= Seq::<Seq<char>>::empty());
        assert(items.drop_first() =~= Seq::<Seq<char>>::empty());
        assert(bulk_strings(Seq::<Seq<char>>::empty()) == Seq::<char>::empty());
        assert(bulk_string(items[0]) + Seq::<char>::empty() =~= bulk_string(items[0]));
    } else {
        lemma_bulk_strings_front(items.drop_last());
        assert(items.drop_last().drop_first() =~= items.drop_first().drop_last());
        assert(items.drop_first().last() == items.last());
        assert(bulk_string(items[0]) + bulk_strings(items.drop_first().drop_last())
            + bulk_string(items.last()) =~= bulk_string(items[0]) + (bulk_strings(
            items.drop_first().drop_last(),
        ) + bulk_string(items.last())));
    }
}

proof fn lemma_split_bulk_strings(items: Seq<Seq<char>>)
    requires
        forall|k: int| 0 <= k < items.len() ==> no_crlf(#[trigger] items[k]),
    ensures
        split_by(bulk_strings(items), crlf()) == bulk_pieces(items) + seq![Seq::<char>::empty()],
    decreases items.len(),
{
    let c = crlf();
    if items.len() == 0 {
        assert(bulk_strings(items) == Seq::<char>::empty());
        lemma_split_empty();
        assert(bulk_pieces(items) =~= Seq::<Seq<char>>::empty());
        assert(bulk_pieces(items) + seq![Seq::<char>::empty()] =~= seq![Seq::<char>::empty()]);
    } else {
        let x = items[0];
        let rest = items.drop_first();
        assert forall|k: int| 0 <= k < rest.len() implies no_crlf(#[trigger] rest[k]) by {
            assert(rest[k] == items[k + 1]);
        }
        lemma_split_bulk_strings(rest);
        lemma_bulk_strings_front(items);
        let h = bulk_header(x);
        lemma_bulk_header_no_crlf(x);
        assert(bulk_string(x) + bulk_strings(rest) =~= h + c + (x + c + bulk_strings(rest)));
        lemma_split_front(h, x + c + bulk_strings(rest));
        lemma_split_front(x, bulk_strings(rest));
        assert(bulk_pieces(items) + seq![Seq::<char>::empty()] =~= seq![h, x] + (bulk_pieces(rest)
            + seq![Seq::<char>::empty()]));
    }
}

/// Reading a framed command back: `parse_array` from position 2 on the
/// output of `resp_command` gives back the command's arguments, provided no
/// argument holds `\r\n` (the frame's own separator).
pub proof fn law_parse_array_resp_command(items: Seq<Seq<char>>)
    requires
        forall|k: int| 0 <= k < items.len() ==> no_crlf(#[trigger] items[k]),
    ensures
        parse_array_spec(resp_array(items), 2) == items,
{
    let c = crlf();
    let head = seq!['*'] + decimal(items.len());
    crate::number::lemma_decimal_roundtrip(items.len());
    assert forall|j: int| 0 <= j < head.len() - 1 implies !(#[trigger] head[j] == '\r' && head[j
        + 1] == '\n') by {
        if j > 0 {
            assert(head[j] == decimal(items.len())[j - 1]);
            assert(crate::number::is_digit(decimal(items.len())[j - 1]));
        }
    }
    assert(resp_array(items) =~= head + c + bulk_strings(items));
    lemma_split_front(head, bulk_strings(items));
    lemma_split_bulk_strings(items);
    let m = split_by(resp_array(items), c);
    assert(m =~= seq![head] + (bulk_pieces(items) + seq![Seq::<char>::empty()]));
    assert(m.len() == 2 * items.len() + 2);
    let r = parse_array_spec(resp_array(items), 2);
    assert(r.len() == items.len());
    assert forall|k: int| 0 <= k < items.len() implies r[k] == items[k] by {
        assert(m[2 + 2 * k] == bulk_pieces(items)[1 + 2 * k]);
        assert((1 + 2 * k) / 2 == k);
    }
    assert(r =~= items);
}

} // verus!

verus! {

/// The inputs `to_command` reads without failing: a command name, and the
/// arguments that `ECHO`, `GET`, `SET` and `REPLCONF` need.
pub open spec fn to_command_ok(input: Seq<Seq<char>>) -> bool {
    &&& input.len() >= 1
    &&& (ascii_lower(input[0]) == "echo"@ || ascii_lower(input[0]) == "get"@ ==> input.len() >= 2)
    &&& (ascii_lower(input[0]) == "set"@ ==> set_args_ok(input))
    &&& (ascii_lower(input[0]) == "replconf"@ ==> replconf_args_ok(input))
}

/// `r` is the command that `input` asks for: the name is matched without
/// regard to ASCII letter case; an unknown name gives `Null`.
pub open spec fn command_for(input: Seq<Seq<char>>, r: Command) -> bool {
    let a = ascii_lower(input[0]);
    if a == "ping"@ {
        r is Ping
    } else if a == "echo"@ {
        r matches Command::Echo(s) && s@ == input[1]
    } else if a == "set"@ {
        r matches Command::SetKey(s) && s.key@ == input[1] && s.val@ == input[2] && s.expiry
            == set_expiry(input)
    } else if a == "get"@ {
        r matches Command::Get(k) && k@ == input[1]
    } else if a == "info"@ {
        r matches Command::Info(o) && (if input.len() == 3 {
            o matches Some(x) && x@ == input[2]
        } else {
            o is None
        })
    } else if a == "psync"@ {
        r is PSYNC
    } else if a == "replconf"@ {
        r matches Command::ReplConf(d) && d.port == (if input[1] == "listening-port"@ {
            parse_i32_spec(input[2])
        } else {
            None
        })
    } else {
        r is Null
    }
}

/// The command names, spelled out.
proof fn lemma_command_words()
    ensures
        "echo"@ == seq!['e', 'c', 'h', 'o'],
        "get"@ == seq!['g', 'e', 't'],
        "set"@ == seq!['s', 'e', 't'],
        "replconf"@ == seq!['r', 'e', 'p', 'l', 'c', 'o', 'n', 'f'],
{
    reveal_strlit("echo");
    reveal_strlit("get");
    reveal_strlit("set");
    reveal_strlit("replconf");
    assert("echo"@ =~= seq!['e', 'c', 'h', 'o']);
    assert("get"@ =~= seq!['g', 'e', 't']);
    assert("set"@ =~= seq!['s', 'e', 't']);
    assert("replconf"@ =~= seq!['r', 'e', 'p', 'l', 'c', 'o', 'n', 'f']);
}

/// Turns the arguments of a request into a command.
pub fn to_command(input: Vec<&str>) -> (r: Command)
    requires
        to_command_ok(views_of(input@)),
    ensures
        command_for(views_of(input@), r),
{
    let ghost v = views_of(input@);
    assert(v[0] == input@[0]@);
    let action = to_ascii_lowercase(input[0]);
    let a = action.as_str();
    if str_equal(a, "ping") {
        Command::Ping
    } else if str_equal(a, "echo") {
        assert(v[1] == input@[1]@);
        Command::Echo(input[1].to_owned())
    } else if str_equal(a, "set") {
        Command::SetKey(SetArgs::from(input))
    } else if str_equal(a, "get") {
        assert(v[1] == input@[1]@);
        Command::Get(input[1].to_owned())
    } else if str_equal(a, "info") {
        if input.len() == 3 {
            assert(v[2] == input@[2]@);
            return Command::Info(Some(input[2].to_owned()));
        }
        Command::Info(None)
    } else if str_equal(a, "psync") {
        Command::PSYNC
    } else if str_equal(a, "replconf") {
        Command::ReplConf(ReplConfData::from(input))
    } else {
        Command::Null
    }
}

/// Whether `to_command` can read these arguments (see `to_command_ok`).
pub fn to_command_accepts(input: &Vec<&str>) -> (r: bool)
    ensures
        r == to_command_ok(views_of(input@)),
{
    let ghost v = views_of(input@);
    assert(v.len() == input@.len());
    if input.len() < 1 {
        return false;
    }
    assert(v[0] == input@[0]@);
    proof {
        lemma_command_words();
    }
    let action = to_ascii_lowercase(input[0]);
    let a = action.as_str();
    if str_equal(a, "echo") || str_equal(a, "get") {
        input.len() >= 2
    } else if str_equal(a, "set") {
        if input.len() < 3 {
            false
        } else if input.len() > 3 {
            assert(v[3] == input@[3]@);
            proof {
                lemma_px_literal();
            }
            !loose_eq(input[3], "px") || input.len() >= 5
        } else {
            true
        }
    } else if str_equal(a, "replconf") {
        if input.len() < 3 {
            false
        } else {
            assert(v[1] == input@[1]@);
            assert(v[2] == input@[2]@);
            !str_equal(input[1], "listening-port") || parse_i32(input[2]).is_some()
        }
    } else {
        true
    }
}

} // verus!

verus! {

/// `std::time::SystemTime`: a reading of the machine's clock, opaque here.
#[verifier::external_type_specification]
#[verifier::external_body]
pub struct ExSystemTime(std::time::SystemTime);

/// `SystemTime::now`: reads the machine's clock. Nothing is stated of the
/// reading.
#[verifier::external_body]
fn system_time_now() -> std::time::SystemTime {
    std::time::SystemTime::now()
}

/// `SystemTime::duration_since(UNIX_EPOCH)`: the time elapsed since the Unix
/// epoch, `None` when the reading lies before it. Nothing more is stated.
#[verifier::external_body]
fn duration_since_epoch(t: std::time::SystemTime) -> Option<core::time::Duration> {
    match t.duration_since(std::time::UNIX_EPOCH) {
        Ok(d) => Some(d),
        Err(_) => None,
    }
}

/// `Duration::as_millis`: the whole milliseconds of a duration. Nothing is
/// stated of it (a duration is opaque here).
#[verifier::external_body]
fn duration_millis(d: &core::time::Duration) -> u128 {
    d.as_millis()
}

/// The current time in milliseconds since the Unix epoch, as the machine's
/// clock gives it; a clock set before the epoch reads as 0.
pub fn get_current_timestamp() -> u128 {
    let t = system_time_now();
    match duration_since_epoch(t) {
        Some(d) => duration_millis(&d),
        None => 0,
    }
}

} // verus!

verus! {

/// The settings that command-line arguments from position `i` on ask for:
/// the last `--port <port>` and the last `--replicaof <host> <port>`.
pub open spec fn scan_config(args: Seq<Seq<char>>, i: int) -> (Option<i32>, Option<(Seq<char>, i32)>)
    decreases args.len() - i,
{
    if i < 0 || i >= args.len() {
        (None, None)
    } else if args[i] == "--port"@ && i + 1 < args.len() {
        let rest = scan_config(args, i + 2);
        (
            if rest.0 is Some { rest.0 } else { parse_i32_spec(args[i + 1]) },
            rest.1,
        )
    } else if args[i] == "--replicaof"@ && i + 2 < args.len() {
        let rest = scan_config(args, i + 3);
        (
            rest.0,
            if rest.1 is Some { rest.1 } else {
                match parse_i32_spec(args[i + 2]) {
                    Some(p) => Some((args[i + 1], p)),
                    None => None,
                }
            },
        )
    } else {
        (None, None)
    }
}

/// The arguments from position `i` on that `parse_config` reads to the end:
/// only `--port <port>` and `--replicaof <host> <port>`, each complete and with
/// a port that reads as an `i32` (any other argument is never passed over).
pub open spec fn config_args_ok(args: Seq<Seq<char>>, i: int) -> bool
    decreases args.len() - i,
{
    if i < 0 || i >= args.len() {
        true
    } else if args[i] == "--port"@ {
        i + 1 < args.len() && parse_i32_spec(args[i + 1]) is Some && config_args_ok(args, i + 2)
    } else if args[i] == "--replicaof"@ {
        i + 2 < args.len() && parse_i32_spec(args[i + 2]) is Some && config_args_ok(args, i + 3)
    } else {
        false
    }
}

/// The views of a list of strings.
pub open spec fn string_views(v: Seq<String>) -> Seq<Seq<char>> {
    v.map_values(|s: String| s@)
}

/// Reads the command line (program name first): `--port <port>` sets the
/// listening port, `--replicaof <host> <port>` makes this server a replica
/// of that master; the last of each wins.
pub fn parse_config(config: Vec<String>) -> (r: Config)
    requires
        config_args_ok(string_views(config@), 1),
    ensures
        ({
            let s = scan_config(string_views(config@), 1);
            &&& r.port == (match s.0 {
                Some(p) => p,
                None => 6379,
            })
            &&& r.replication.offset == 0
            &&& r.replicas@.len() == 0
            &&& match s.1 {
                Some((h, p)) => {
                    &&& !r.replication.master
                    &&& r.replication.replication_id@ == Seq::<char>::empty()
                    &&& r.replication.master_host@ == h
                    &&& r.replication.master_port == p
                },
                None => {
                    &&& r.replication.master
                    &&& r.replication.replication_id@ == default_replication_id()
                    &&& r.replication.master_host@ == default_master_host()
                    &&& r.replication.master_port == 6379
                },
            }
        }),
{
    let ghost args = string_views(config@);
    let l = config.len();
    let mut conf = Config::default();
    let mut i: usize = 1;
    while i < l
        invariant
            l == config@.len(),
            args == string_views(config@),
            1 <= i,
            config_args_ok(args, i as int),
            conf.replication.offset == 0,
            conf.replicas@.len() == 0,
            ({
                let s = scan_config(args, 1);
                let t = scan_config(args, i as int);
                &&& (match s.0 {
                    Some(p) => p,
                    None => 6379,
                }) == (match t.0 {
                    Some(p) => p,
                    None => conf.port,
                })
                &&& match t.1 {
                    Some(x) => s.1 == Some(x),
                    None => match s.1 {
                        Some((h, p)) => {
                            &&& !conf.replication.master
                            &&& conf.replication.replication_id@ == Seq::<char>::empty()
                            &&& conf.replication.master_host@ == h
                            &&& conf.replication.master_port == p
                        },
                        None => {
                            &&& conf.replication.master
                            &&& conf.replication.replication_id@ == default_replication_id()
                            &&& conf.replication.master_host@ == default_master_host()
                            &&& conf.replication.master_port == 6379
                        },
                    },
                }
            }),
        decreases l - i,
    {
        assert(args[i as int] == config@[i as int]@);
        if str_equal(config[i].as_str(), "--port") {
            assert(args[i + 1] == config@[i + 1]@);
            let port = match parse_i32(config[i + 1].as_str()) {
                Some(p) => p,
                None => {
                    assert(false);
                    0
                },
            };
            conf.port = port;
            i = i + 2;
        } else if str_equal(config[i].as_str(), "--replicaof") {
            assert(args[i + 1] == config@[i + 1]@);
            assert(args[i + 2] == config@[i + 2]@);
            conf.replication.master = false;
            conf.replication.replication_id = String::new();
            conf.replication.master_host = config[i + 1].clone();
            conf.replication.master_port = match parse_i32(config[i + 2].as_str()) {
                Some(p) => p,
                None => {
                    assert(false);
                    0
                },
            };
            i = i + 3;
        } else {
            assert(false);
        }
    }
    conf
}

/// Whether `parse_config` can read this command line (see `config_args_ok`).
pub fn parse_config_accepts(config: &Vec<String>) -> (r: bool)
    ensures
        r == config_args_ok(string_views(config@), 1),
{
    let ghost args = string_views(config@);
    let l = config.len();
    let mut i: usize = 1;
    while i < l
        invariant
            l == config@.len(),
            args == string_views(config@),
            1 <= i,
            config_args_ok(args, 1) == config_args_ok(args, i as int),
        decreases l - i,
    {
        assert(args[i as int] == config@[i as int]@);
        if str_equal(config[i].as_str(), "--port") {
            if l - i <= 1 {
                return false;
            }
            assert(args[i + 1] == config@[i + 1]@);
            if parse_i32(config[i + 1].as_str()).is_none() {
                return false;
            }
            i = i + 2;
        } else if str_equal(config[i].as_str(), "--replicaof") {
            if l - i <= 2 {
                return false;
            }
            assert(args[i + 2] == config@[i + 2]@);
            if parse_i32(config[i + 2].as_str()).is_none() {
                return false;
            }
            i = i + 3;
        } else {
            return false;
        }
    }
    true
}

} // verus!

verus! {

/// Command names are read without regard to ASCII letter case: two requests
/// that differ only in the case of the name are accepted alike, and read
/// alike when accepted.
pub proof fn law_to_command_case_insensitive(x: Seq<Seq<char>>, y: Seq<Seq<char>>, r: Command)
    requires
        x.len() >= 1,
        y.len() == x.len(),
        ascii_lower(x[0]) == ascii_lower(y[0]),
        forall|i: int| 1 <= i < x.len() ==> x[i] == y[i],
    ensures
        to_command_ok(x) == to_command_ok(y),
        to_command_ok(x) ==> command_for(x, r) == command_for(y, r),
{
    if x.len() > 1 {
        assert(x[1] == y[1]);
    }
    if x.len() > 2 {
        assert(x[2] == y[2]);
    }
    if x.len() > 3 {
        assert(x[3] == y[3]);
    }
    if x.len() > 4 {
        assert(x[4] == y[4]);
    }
    assert(set_args_ok(x) == set_args_ok(y));
    assert(set_args_ok(x) ==> set_expiry(x) == set_expiry(y));
    assert(replconf_args_ok(x) == replconf_args_ok(y));
}

/// Decoding hexadecimal text gives one byte for every two characters.
pub proof fn law_hex_decode_length(b: Seq<u8>)
    requires
        hex_decode(b) is Some,
    ensures
        2 * hex_decode(b)->0.len() == b.len(),
    decreases b.len(),
{
    if b.len() >= 2 {
        law_hex_decode_length(b.skip(2));
    }
}

} // verus!

verus! {

/// The hexadecimal digit for a value below 16, in upper or lower case.
pub open spec fn hex_digit(n: u8, upper: bool) -> u8 {
    if n < 10 {
        (48 + n) as u8
    } else if upper {
        (55 + n) as u8
    } else {
        (87 + n) as u8
    }
}

/// The hexadecimal text of the bytes: two digits per byte, the high half first.
pub open spec fn hex_encode(b: Seq<u8>, upper: bool) -> Seq<u8>
    decreases b.len(),
{
    if b.len() == 0 {
        Seq::empty()
    } else {
        seq![hex_digit(b[0] / 16, upper), hex_digit(b[0] % 16, upper)] + hex_encode(
            b.drop_first(),
            upper,
        )
    }
}

/// Decoding the hexadecimal text of some bytes, in upper or lower case,
/// gives back the bytes.
pub proof fn law_hex_round_trip(b: Seq<u8>, upper: bool)
    ensures
        hex_decode(hex_encode(b, upper)) == Some(b),
    decreases b.len(),
{
    let h = hex_encode(b, upper);
    if b.len() > 0 {
        law_hex_round_trip(b.drop_first(), upper);
        let hi = b[0] / 16;
        let lo = b[0] % 16;
        assert(h[0] == hex_digit(hi, upper));
        assert(h[1] == hex_digit(lo, upper));
        assert(is_hex_byte(h[0]) && hex_value(h[0]) == hi);
        assert(is_hex_byte(h[1]) && hex_value(h[1]) == lo);
        assert(hex_pair(h[0], h[1]) == Some(b[0]));
        assert(h.skip(2) =~= hex_encode(b.drop_first(), upper));
        assert(seq![b[0]] + b.drop_first() =~= b);
    } else {
        assert(h.len() == 0);
    }
}

} // verus!

verus! {

proof fn lemma_flag_words()
    ensures
        "--port"@ != "--replicaof"@,
{
    reveal_strlit("--port");
    reveal_strlit("--replicaof");
    assert("--port"@.len() != "--replicaof"@.len());
}

/// The listening port is set by `--port` alone, and the last one wins: a
/// `--port <port>` group sets it unless a later `--port` does, a
/// `--replicaof <host> <port>` group leaves it as the rest of the line sets
/// it, and a line with no `--port` at all sets none (so the port stays 6379).
pub proof fn law_config_port_only_from_port_flag(args: Seq<Seq<char>>, i: int)
    ensures
        0 <= i && i + 1 < args.len() && args[i] == "--port"@ ==> scan_config(args, i).0 == (
        if scan_config(args, i + 2).0 is Some {
            scan_config(args, i + 2).0
        } else {
            parse_i32_spec(args[i + 1])
        }),
        0 <= i && i + 2 < args.len() && args[i] == "--replicaof"@ ==> scan_config(args, i).0
            == scan_config(args, i + 3).0,
        (forall|j: int| i <= j < args.len() ==> #[trigger] args[j] != "--port"@) ==> scan_config(
            args,
            i,
        ).0 is None,
    decreases args.len() - i,
{
    lemma_flag_words();
    if 0 <= i < args.len() && (forall|j: int| i <= j < args.len() ==> #[trigger] args[j] != "--port"@) {
        if args[i] == "--replicaof"@ && i + 2 < args.len() {
            law_config_port_only_from_port_flag(args, i + 3);
        }
    }
}

/// Complete `--port <port>` and `--replicaof <host> <port>` groups, with
/// ports that read as `i32`, are accepted wherever they stand, up to the end
/// of the line; anything else where a flag is expected is refused.
pub proof fn law_config_groups_accepted(args: Seq<Seq<char>>, i: int)
    requires
        0 <= i,
    ensures
        i >= args.len() ==> config_args_ok(args, i),
        i + 1 < args.len() && args[i] == "--port"@ && parse_i32_spec(args[i + 1]) is Some
            && config_args_ok(args, i + 2) ==> config_args_ok(args, i),
        i + 2 < args.len() && args[i] == "--replicaof"@ && parse_i32_spec(args[i + 2]) is Some
            && config_args_ok(args, i + 3) ==> config_args_ok(args, i),
        i + 2 == args.len() - 1 && args[i] == "--replicaof"@ && parse_i32_spec(args[i + 2]) is Some
            ==> config_args_ok(args, i),
        i + 1 == args.len() - 1 && args[i] == "--port"@ && parse_i32_spec(args[i + 1]) is Some
            ==> config_args_ok(args, i),
        i < args.len() && args[i] != "--port"@ && args[i] != "--replicaof"@ ==> !config_args_ok(
            args,
            i,
        ),
{
    lemma_flag_words();
    assert(config_args_ok(args, args.len() as int));
}

/// Only `ECHO`, `GET`, `SET` and `REPLCONF` need arguments: a request made of
/// any other command name alone (a bare `INFO`, `PING` or `PSYNC`) is read.
pub proof fn law_bare_command_accepted(name: Seq<char>)
    requires
        ascii_lower(name) != "echo"@,
        ascii_lower(name) != "get"@,
        ascii_lower(name) != "set"@,
        ascii_lower(name) != "replconf"@,
    ensures
        to_command_ok(seq![name]),
{
}

} // verus!
