use lib::actions::{type_fn, xadd, xrange_action};
use lib::commands::{XRangeData, XA};
use lib::data::Stream;
use lib::streams::{get_time, id_string, stream_add, IdError};
use lib::table::Table;
use lib::types::{Memory, StreamMemory};

fn xa(key: &str, id: &str, kv: &[&str]) -> XA {
    XA {
        stream_key: key.to_string(),
        id: id.to_string(),
        key_vals: kv.iter().map(|s| s.to_string()).collect(),
    }
}

fn range(key: &str, a: (u128, u128), b: (u128, u128)) -> XRangeData {
    XRangeData { key: key.to_string(), a, b }
}

#[test]
fn stream_from_keeps_the_id_as_written() {
    let s = Stream::from(xa("s", "01-2", &["a", "1", "a", "2", "b", "3"]), 42);
    assert_eq!(s.created_at, 42);
    assert_eq!(s.top, vec![1, 2]);
    assert_eq!(s.map.len(), 1);
    assert_eq!(s.map.key_at(0), "01-2");
    let fields = s.map.get("01-2").unwrap();
    assert_eq!(fields.len(), 2);
    assert_eq!(fields.get("a").unwrap().val, "2");
    assert_eq!(fields.get("b").unwrap().val, "3");
}

#[test]
fn parse_xa_fills_in_star_sequence() {
    let s = Stream::parse_xa(xa("s", "5-*", &["f", "v"]), &vec![5, 7], 9);
    assert_eq!(s.top, vec![5, 8]);
    assert_eq!(s.map.key_at(0), "5-8");
    let s = Stream::parse_xa(xa("s", "6-*", &[]), &vec![5, 7], 9);
    assert_eq!(s.top, vec![6, 0]);
    let s = Stream::parse_xa(xa("s", "007-3", &[]), &vec![5, 7], 9);
    assert_eq!(s.top, vec![7, 3]);
    assert_eq!(s.map.key_at(0), "7-3");
}

#[test]
fn xadd_replies_with_new_ids() {
    let mut sm: StreamMemory = Table::new();
    let mut memory: Memory = Table::new();
    assert_eq!(xadd(&mut sm, &mut memory, xa("s", "1-1", &["a", "b"]), 7, vec!["XADD"]).0, "$3\r\n1-1\r\n");
    assert_eq!(xadd(&mut sm, &mut memory, xa("s", "1-*", &["c", "d"]), 7, vec!["XADD"]).0, "$3\r\n1-2\r\n");
    assert_eq!(xadd(&mut sm, &mut memory, xa("s", "2-*", &[]), 7, vec!["XADD"]).0, "$3\r\n2-0\r\n");
    assert_eq!(xadd(&mut sm, &mut memory, xa("t", "0-*", &[]), 7, vec!["XADD"]).0, "$3\r\n0-1\r\n");
    assert_eq!(sm.get("s").unwrap().map.len(), 3);
    assert_eq!(type_fn(&memory, "s"), "$6\r\nstream\r\n");
}

#[test]
fn xadd_refuses_zero_and_non_increasing_ids() {
    let mut sm: StreamMemory = Table::new();
    let mut memory: Memory = Table::new();
    assert_eq!(
        xadd(&mut sm, &mut memory, xa("s", "0-0", &[]), 7, vec!["XADD"]).0,
        "-ERR The ID specified in XADD must be greater than 0-0\r\n"
    );
    assert_eq!(sm.len(), 0);
    assert_eq!(memory.len(), 0);
    xadd(&mut sm, &mut memory, xa("s", "5-5", &[]), 7, vec!["XADD"]).0;
    let refused = "-ERR The ID specified in XADD is equal or smaller than the target stream top item\r\n";
    assert_eq!(xadd(&mut sm, &mut memory, xa("s", "5-5", &[]), 7, vec!["XADD"]).0, refused);
    assert_eq!(xadd(&mut sm, &mut memory, xa("s", "4-9", &[]), 7, vec!["XADD"]).0, refused);
    assert_eq!(sm.get("s").unwrap().map.len(), 1);
}

#[test]
fn stream_add_gives_ids_as_numbers() {
    let mut sm: StreamMemory = Table::new();
    let mut memory: Memory = Table::new();
    assert_eq!(stream_add(&mut memory, &mut sm, xa("s", "3-4", &[]), 7), Ok(vec![3, 4]));
    assert_eq!(stream_add(&mut memory, &mut sm, xa("s", "3-4", &[]), 7), Err(IdError::IdError));
    assert_eq!(stream_add(&mut memory, &mut sm, xa("u", "0-0", &[]), 7), Err(IdError::NullIdError));
    assert_eq!(memory.get("s").unwrap().val, "3-4");
}

#[test]
fn xrange_lists_entries_in_range_in_order() {
    let mut sm: StreamMemory = Table::new();
    let mut memory: Memory = Table::new();
    xadd(&mut sm, &mut memory, xa("s", "1-1", &["a", "x"]), 7, vec!["XADD"]).0;
    xadd(&mut sm, &mut memory, xa("s", "2-0", &["b", "y"]), 7, vec!["XADD"]).0;
    xadd(&mut sm, &mut memory, xa("s", "3-5", &["c", "z"]), 7, vec!["XADD"]).0;
    let all = xrange_action(&sm, range("s", (0, 0), (u128::MAX, u128::MAX)));
    assert_eq!(
        all,
        "*3\r\n*2\r\n$3\r\n1-1\r\n*2\r\n$1\r\na\r\n$1\r\nx\r\n\
         *2\r\n$3\r\n2-0\r\n*2\r\n$1\r\nb\r\n$1\r\ny\r\n\
         *2\r\n$3\r\n3-5\r\n*2\r\n$1\r\nc\r\n$1\r\nz\r\n"
    );
    let some = xrange_action(&sm, range("s", (1, 2), (3, 5)));
    assert_eq!(some, "*2\r\n*2\r\n$3\r\n2-0\r\n*2\r\n$1\r\nb\r\n$1\r\ny\r\n*2\r\n$3\r\n3-5\r\n*2\r\n$1\r\nc\r\n$1\r\nz\r\n");
    assert_eq!(xrange_action(&sm, range("s", (4, 0), (9, 0))), "*0\r\n");
}

#[test]
fn ids_and_times() {
    assert_eq!(id_string(12, 0), "12-0");
    assert_eq!(get_time("12-3"), (12, 3));
    assert_eq!(get_time("12"), (12, 0));
}

#[test]
fn xadd_passes_the_command_on_and_stamps_times() {
    let mut sm: StreamMemory = Table::new();
    let mut memory: Memory = Table::new();
    let (reply, propagate) = xadd(&mut sm, &mut memory, xa("s", "1-1", &["a", "b"]), 123, vec!["XADD", "s", "1-1", "a", "b"]);
    assert_eq!(reply, "$3\r\n1-1\r\n");
    assert_eq!(propagate, "*5\r\n$4\r\nXADD\r\n$1\r\ns\r\n$3\r\n1-1\r\n$1\r\na\r\n$1\r\nb\r\n");
    let s = sm.get("s").unwrap();
    assert_eq!(s.created_at, 123);
    assert_eq!(s.map.get("1-1").unwrap().get("a").unwrap().created_at, 123);
    assert_eq!(memory.get("s").unwrap().created_at, 123);
    let (reply, propagate) = xadd(&mut sm, &mut memory, xa("s", "0-0", &[]), 124, vec!["XADD", "s", "0-0"]);
    assert_eq!(reply, "-ERR The ID specified in XADD must be greater than 0-0\r\n");
    assert_eq!(propagate, "*3\r\n$4\r\nXADD\r\n$1\r\ns\r\n$3\r\n0-0\r\n");
}

#[test]
fn xrange_sorts_entries_of_any_stream() {
    let mut s = Stream::from(xa("s", "5-1", &["e", "5"]), 1);
    let fields = Stream::from(xa("t", "2-0", &["f", "2"]), 1);
    let f = fields.map.get("2-0").unwrap();
    let mut copy = Table::new();
    copy.insert("f".to_string(), lib::data::Val { val: f.get("f").unwrap().val.clone(), created_at: 1, expiry: None, value_type: lib::data::ValType::STRING });
    s.map.insert("2-0".to_string(), copy);
    s.map.insert("03-0".to_string(), Table::new());
    let mut sm: StreamMemory = Table::new();
    sm.insert("s".to_string(), s);
    let all = xrange_action(&sm, range("s", (0, 0), (u128::MAX, u128::MAX)));
    assert_eq!(
        all,
        "*3\r\n*2\r\n$3\r\n2-0\r\n*2\r\n$1\r\nf\r\n$1\r\n2\r\n\
         *2\r\n$4\r\n03-0\r\n*0\r\n\
         *2\r\n$3\r\n5-1\r\n*2\r\n$1\r\ne\r\n$1\r\n5\r\n"
    );
    let some = xrange_action(&sm, range("s", (3, 0), (5, 0)));
    assert_eq!(some, "*1\r\n*2\r\n$4\r\n03-0\r\n*0\r\n");
}
