use lil_redis::resp::{DecodeError, RESPType};

fn round_trip(v: RESPType) {
    let bytes = v.pack();
    let (back, n) = RESPType::unpack(&bytes).unwrap();
    assert_eq!(n, bytes.len());
    assert_eq!(back, v);
}

#[test]
fn encodes_each_kind() {
    assert_eq!(RESPType::SimpleString("OK".to_string()).pack(), b"+OK\r\n".to_vec());
    assert_eq!(RESPType::Error("Busy".to_string()).pack(), b"-Busy\r\n".to_vec());
    assert_eq!(RESPType::Integer(1234).pack(), b":1234\r\n".to_vec());
    assert_eq!(RESPType::Integer(0).pack(), b":0\r\n".to_vec());
    assert_eq!(RESPType::BulkString("hello".to_string()).pack(), b"$5\r\nhello\r\n".to_vec());
    assert_eq!(RESPType::BulkString(String::new()).pack(), b"$0\r\n\r\n".to_vec());
    assert_eq!(RESPType::Null.pack(), b"$-1\r\n".to_vec());
    assert_eq!(
        RESPType::Array(vec![
            RESPType::BulkString("GET".to_string()),
            RESPType::BulkString("key".to_string()),
        ])
        .pack(),
        b"*2\r\n$3\r\nGET\r\n$3\r\nkey\r\n".to_vec()
    );
    assert_eq!(RESPType::Array(vec![]).pack(), b"*0\r\n".to_vec());
}

#[test]
fn bulk_length_counts_bytes() {
    assert_eq!(RESPType::BulkString("é".to_string()).pack(), "$2\r\né\r\n".as_bytes().to_vec());
}

#[test]
fn round_trips() {
    round_trip(RESPType::Null);
    round_trip(RESPType::SimpleString("PONG".to_string()));
    round_trip(RESPType::Error("Unsupported command".to_string()));
    round_trip(RESPType::Integer(u64::MAX));
    round_trip(RESPType::BulkString("line\r\nbreak ü".to_string()));
    round_trip(RESPType::Array(vec![
        RESPType::Integer(7),
        RESPType::Array(vec![RESPType::Null, RESPType::BulkString("x".to_string())]),
        RESPType::SimpleString(String::new()),
    ]));
}

#[test]
fn decodes_first_of_several_frames() {
    let bytes = b"+a\r\n:12\r\n";
    let (v, n) = RESPType::unpack(bytes).unwrap();
    assert_eq!(v, RESPType::SimpleString("a".to_string()));
    assert_eq!(n, 4);
    let (v, n) = RESPType::unpack(&bytes[n..]).unwrap();
    assert_eq!(v, RESPType::Integer(12));
    assert_eq!(n, 5);
}

#[test]
fn truncated_frames_ask_for_more() {
    assert_eq!(RESPType::unpack(b""), Err(DecodeError::Incomplete));
    assert_eq!(RESPType::unpack(b"+OK"), Err(DecodeError::Incomplete));
    assert_eq!(RESPType::unpack(b"+OK\r"), Err(DecodeError::Incomplete));
    assert_eq!(RESPType::unpack(b"$5\r\nhel"), Err(DecodeError::Incomplete));
    assert_eq!(RESPType::unpack(b"*2\r\n$1\r\na\r\n"), Err(DecodeError::Incomplete));
}

#[test]
fn malformed_frames_are_invalid() {
    assert_eq!(RESPType::unpack(b"?x\r\n"), Err(DecodeError::Invalid));
    assert_eq!(RESPType::unpack(b":12a\r\n"), Err(DecodeError::Invalid));
    assert_eq!(RESPType::unpack(b":\r\n"), Err(DecodeError::Invalid));
    assert_eq!(RESPType::unpack(b":18446744073709551616\r\n"), Err(DecodeError::Invalid));
    assert_eq!(RESPType::unpack(b"$3\r\nabcd\r\n"), Err(DecodeError::Invalid));
    assert_eq!(RESPType::unpack(b"+\xff\r\n"), Err(DecodeError::Invalid));
    assert_eq!(RESPType::unpack(b"*1\r\n!\r\n"), Err(DecodeError::Invalid));
}

#[test]
fn pack_string_accepts_text_frames_only() {
    assert_eq!(RESPType::BulkString("a".to_string()).pack_string(), Ok("a"));
    assert_eq!(RESPType::SimpleString("b".to_string()).pack_string(), Ok("b"));
    assert!(RESPType::Integer(1).pack_string().is_err());
    assert!(RESPType::Null.pack_string().is_err());
}
