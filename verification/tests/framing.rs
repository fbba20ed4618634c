use lib::helpers::{concat_u8, hex_to_binary, loose_eq, parse_array, resp_command, resp_response};

#[test]
fn resp_response_frames_a_bulk_string() {
    assert_eq!(resp_response("hello"), "$5\r\nhello\r\n");
    assert_eq!(resp_response(""), "$0\r\n\r\n");
    assert_eq!(resp_response("héllo"), "$6\r\nhéllo\r\n");
}

#[test]
fn parse_array_reads_every_second_line() {
    let msg = "*2\r\n$4\r\nECHO\r\n$3\r\nhey\r\n";
    assert_eq!(parse_array(msg, None), vec!["ECHO", "hey"]);
    assert_eq!(parse_array(msg, Some(2)), vec!["ECHO", "hey"]);
    assert_eq!(parse_array(msg, Some(0)), vec!["*2", "ECHO", "hey"]);
    assert_eq!(parse_array("+PONG\r\n", Some(0)), vec!["+PONG"]);
    assert_eq!(parse_array("", Some(0)), vec![""]);
    assert_eq!(parse_array("abc", Some(5)), Vec::<&str>::new());
}

#[test]
fn parse_array_ignores_trailing_zero_bytes() {
    let mut buffer = String::from("*1\r\n$4\r\nPING\r\n");
    buffer.push_str(&"\0".repeat(20));
    assert_eq!(parse_array(&buffer, None), vec!["PING"]);
}

#[test]
fn resp_command_frames_an_array() {
    assert_eq!(resp_command(vec!["ping"]), "*1\r\n$4\r\nping\r\n");
    assert_eq!(
        resp_command(vec!["SET", "k", "héllo"]),
        "*3\r\n$3\r\nSET\r\n$1\r\nk\r\n$6\r\nhéllo\r\n"
    );
    assert_eq!(resp_command(vec![]), "*0\r\n");
}

#[test]
fn resp_command_then_parse_array_gives_back_the_command() {
    let cmd = vec!["SET", "key", "va\rl", "", "px", "100"];
    let framed = resp_command(cmd.clone());
    assert_eq!(parse_array(&framed, Some(2)), cmd);
}

#[test]
fn loose_eq_ignores_ascii_case_only() {
    assert!(loose_eq("PX", "px"));
    assert!(loose_eq("pX", "Px"));
    assert!(!loose_eq("px", "py"));
    assert!(!loose_eq("É", "é"));
}

#[test]
fn hex_to_binary_decodes_pairs() {
    assert_eq!(hex_to_binary("ff00A1"), Some(vec![255, 0, 161]));
    assert_eq!(hex_to_binary(""), Some(vec![]));
    assert_eq!(hex_to_binary("+f"), Some(vec![15]));
}

#[test]
fn hex_to_binary_refuses_bad_text() {
    assert_eq!(hex_to_binary("abc"), None);
    assert_eq!(hex_to_binary("zz"), None);
    assert_eq!(hex_to_binary("-1"), None);
    assert_eq!(hex_to_binary("é"), None);
}

#[test]
fn hex_to_binary_output_is_half_the_length() {
    let out = hex_to_binary("0123456789abcdef").unwrap();
    assert_eq!(out.len(), 8);
}

#[test]
fn concat_u8_moves_bytes() {
    let mut a = vec![1u8, 2];
    let mut b = vec![3u8];
    concat_u8(&mut a, &mut b);
    assert_eq!(a, vec![1, 2, 3]);
    assert!(b.is_empty());
}

#[test]
fn hex_of_bytes_decodes_back() {
    let bytes: Vec<u8> = vec![0, 1, 0x7f, 0x80, 0xab, 0xff];
    let lower: String = bytes.iter().map(|b| format!("{:02x}", b)).collect();
    let upper: String = bytes.iter().map(|b| format!("{:02X}", b)).collect();
    assert_eq!(hex_to_binary(&lower), Some(bytes.clone()));
    assert_eq!(hex_to_binary(&upper), Some(bytes));
}
