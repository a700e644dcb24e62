use lil_redis::commands::{Command, CommandError};
use lil_redis::resp::RESPType;

fn bulk(s: &str) -> RESPType {
    RESPType::BulkString(s.to_string())
}

#[test]
fn names_match_in_any_case() {
    assert_eq!(Command::new("PiNg", vec![]), Ok(Command::Ping(None)));
    assert_eq!(Command::new("echo", vec![&bulk("hi")]), Ok(Command::Echo("hi".to_string())));
    assert_eq!(Command::new("GET", vec![&bulk("k")]), Ok(Command::Get("k".to_string())));
}

#[test]
fn each_refusal() {
    let n = RESPType::Integer(3);
    assert_eq!(Command::new("ping", vec![&n]), Err(CommandError::InvalidValue));
    assert_eq!(Command::new("get", vec![]), Err(CommandError::InvalidKey));
    assert_eq!(Command::new("get", vec![&bulk("a"), &bulk("b")]), Err(CommandError::InvalidKey));
    assert_eq!(Command::new("echo", vec![&n]), Err(CommandError::InvalidMessage));
    assert_eq!(Command::new("set", vec![&bulk("k")]), Err(CommandError::InvalidKeyOrValue));
    assert_eq!(Command::new("FOO", vec![]), Err(CommandError::UnsupportedCommand));
    assert_eq!(Command::new("pingg", vec![]), Err(CommandError::UnsupportedCommand));
    assert_eq!(CommandError::UnsupportedCommand.message(), "Unsupported command");
    assert_eq!(CommandError::InvalidKeyOrValue.message(), "Invalid key or value");
}

#[test]
fn set_reads_expiry_at_fourth_place() {
    let args = [bulk("k"), bulk("v"), bulk("PX"), bulk("1500")];
    assert_eq!(
        Command::new("SET", args.iter().collect()),
        Ok(Command::SetKey { key: "k".to_string(), value: "v".to_string(), px: Some(1500) })
    );
    let plus = [bulk("k"), bulk("v"), bulk("PX"), bulk("+1000")];
    assert_eq!(
        Command::new("SET", plus.iter().collect()),
        Ok(Command::SetKey { key: "k".to_string(), value: "v".to_string(), px: Some(1000) })
    );
    for text in ["+", "++1", "-5", "1 ", "18446744073709551616"] {
        let odd = [bulk("k"), bulk("v"), bulk("PX"), bulk(text)];
        assert_eq!(
            Command::new("SET", odd.iter().collect()),
            Ok(Command::SetKey { key: "k".to_string(), value: "v".to_string(), px: None })
        );
    }
    let bad = [bulk("k"), bulk("v"), bulk("PX"), bulk("soon")];
    assert_eq!(
        Command::new("SET", bad.iter().collect()),
        Ok(Command::SetKey { key: "k".to_string(), value: "v".to_string(), px: None })
    );
    let plain = [bulk("k"), RESPType::SimpleString("v".to_string())];
    assert_eq!(
        Command::new("set", plain.iter().collect()),
        Ok(Command::SetKey { key: "k".to_string(), value: "v".to_string(), px: None })
    );
}

#[test]
fn to_command_needs_an_array_named_by_a_bulk_string() {
    let line = RESPType::Array(vec![bulk("ECHO"), bulk("hello")]);
    assert_eq!(line.to_command(), Ok(Command::Echo("hello".to_string())));
    assert_eq!(bulk("PING").to_command(), Err(CommandError::NotAnArray));
    assert_eq!(RESPType::Array(vec![]).to_command(), Err(CommandError::NotACommand));
    let simple_name = RESPType::Array(vec![RESPType::SimpleString("PING".to_string())]);
    assert_eq!(simple_name.to_command(), Err(CommandError::NotACommand));
}
