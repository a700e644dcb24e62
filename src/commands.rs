//! Commands: parsing a command line of frames into a checked command.

use vstd::prelude::*;
use vstd::string::*;
use vstd::utf8::encode_utf8;
use crate::decimal::{parse_unsigned, unsigned_u64};
use crate::cache::{after_lookup, lookup, Cache, Stored};
use crate::resp::{RESPType, Value};

verus! {

/// A command whose arguments are present and of the right kind.
#[derive(Debug, PartialEq, Eq)]
pub enum Command {
    Get(String),
    Echo(String),
    Ping(Option<String>),
    SetKey { key: String, value: String, px: Option<u64> },
}

/// The mathematical content of a command.
pub enum CommandSpec {
    Get(Seq<char>),
    Echo(Seq<char>),
    Ping(Option<Seq<char>>),
    SetKey { key: Seq<char>, value: Seq<char>, px: Option<u64> },
}

impl View for Command {
    type V = CommandSpec;

    open spec fn view(&self) -> CommandSpec {
        match self {
            Command::Get(k) => CommandSpec::Get(k@),
            Command::Echo(m) => CommandSpec::Echo(m@),
            Command::Ping(m) => CommandSpec::Ping(
                match m {
                    Some(s) => Some(s@),
                    None => None,
                },
            ),
            Command::SetKey { key, value, px } => CommandSpec::SetKey { key: key@, value: value@, px: *px },
        }
    }
}

/// Why a command line was refused.
#[derive(Debug, Clone, Copy, PartialEq, Eq, Structural)]
pub enum CommandError {
    /// A frame that carries no text was read as text.
    NotAString,
    /// The argument of `PING` is not text.
    InvalidValue,
    /// `GET` did not get exactly one text argument.
    InvalidKey,
    /// `ECHO` did not get exactly one text argument.
    InvalidMessage,
    /// `SET` lacks a text key or a text value.
    InvalidKeyOrValue,
    /// The command name is none of those served.
    UnsupportedCommand,
    /// The command line is empty or its name is not a bulk string.
    NotACommand,
    /// The frame is not an array.
    NotAnArray,
}

/// The text sent back to a client for each refusal.
pub open spec fn error_text(e: CommandError) -> Seq<char> {
    match e {
        CommandError::NotAString => "Trying to decode non-string"@,
        CommandError::InvalidValue => "Invalid value"@,
        CommandError::InvalidKey => "Invalid key"@,
        CommandError::InvalidMessage => "Invalid message"@,
        CommandError::InvalidKeyOrValue => "Invalid key or value"@,
        CommandError::UnsupportedCommand => "Unsupported command"@,
        CommandError::NotACommand => "not a command"@,
        CommandError::NotAnArray => "not an array"@,
    }
}

impl CommandError {
    /// The text sent back to a client for this refusal.
    pub fn message(&self) -> (r: String)
        ensures
            r@ == error_text(*self),
    {
        match self {
            CommandError::NotAString => String::from_str("Trying to decode non-string"),
            CommandError::InvalidValue => String::from_str("Invalid value"),
            CommandError::InvalidKey => String::from_str("Invalid key"),
            CommandError::InvalidMessage => String::from_str("Invalid message"),
            CommandError::InvalidKeyOrValue => String::from_str("Invalid key or value"),
            CommandError::UnsupportedCommand => String::from_str("Unsupported command"),
            CommandError::NotACommand => String::from_str("not a command"),
            CommandError::NotAnArray => String::from_str("not an array"),
        }
    }
}

/// The text a frame carries, when it is a simple or a bulk string.
pub open spec fn string_of(v: Value) -> Option<Seq<char>> {
    match v {
        Value::SimpleString(s) => Some(s),
        Value::BulkString(s) => Some(s),
        _ => None,
    }
}

/// `c` with an ASCII capital letter taken to its small letter, as a code.
pub open spec fn folded(c: char) -> u32 {
    if 65 <= c as u32 <= 90 {
        (c as u32 + 32) as u32
    } else {
        c as u32
    }
}

/// True when `name` spells the lower-case `word`, in any letter case.
pub open spec fn names(name: Seq<char>, word: Seq<char>) -> bool {
    name.len() == word.len() && forall|i: int|
        0 <= i < name.len() ==> folded(#[trigger] name[i]) == word[i] as u32
}

/// The text at position `i` of `args`: `None` past the end, `Some(None)`
/// where the frame there carries no text.
pub open spec fn arg_text(args: Seq<Value>, i: int) -> Option<Option<Seq<char>>> {
    if 0 <= i < args.len() {
        Some(string_of(args[i]))
    } else {
        None
    }
}

/// The expiry in milliseconds that a `SET` carries at position 3: a text
/// that reads as an unsigned 64-bit number (digits, after at most one `+`),
/// and none otherwise.
pub open spec fn expiry_of(args: Seq<Value>) -> Option<u64> {
    match arg_text(args, 3) {
        Some(Some(t)) => unsigned_u64(encode_utf8(t)),
        _ => None,
    }
}

/// The command that `name` and its arguments make, or why there is none.
pub open spec fn parse_command(name: Seq<char>, args: Seq<Value>) -> Result<CommandSpec, CommandError> {
    if names(name, "ping"@) {
        match arg_text(args, 0) {
            None => Ok(CommandSpec::Ping(None)),
            Some(Some(m)) => Ok(CommandSpec::Ping(Some(m))),
            Some(None) => Err(CommandError::InvalidValue),
        }
    } else if names(name, "get"@) {
        match arg_text(args, 0) {
            Some(Some(k)) if args.len() == 1 => Ok(CommandSpec::Get(k)),
            _ => Err(CommandError::InvalidKey),
        }
    } else if names(name, "echo"@) {
        match arg_text(args, 0) {
            Some(Some(m)) if args.len() == 1 => Ok(CommandSpec::Echo(m)),
            _ => Err(CommandError::InvalidMessage),
        }
    } else if names(name, "set"@) {
        match (arg_text(args, 0), arg_text(args, 1)) {
            (Some(Some(k)), Some(Some(v))) => Ok(CommandSpec::SetKey { key: k, value: v, px: expiry_of(args) }),
            _ => Err(CommandError::InvalidKeyOrValue),
        }
    } else {
        Err(CommandError::UnsupportedCommand)
    }
}

/// The reply to command `c` run on contents `m` at time `now`.
pub open spec fn reply_of(c: CommandSpec, m: Map<Seq<char>, Stored>, now: u128) -> Value {
    match c {
        CommandSpec::Echo(msg) => Value::BulkString(msg),
        CommandSpec::Ping(Some(msg)) => Value::BulkString(msg),
        CommandSpec::Ping(None) => Value::SimpleString("PONG"@),
        CommandSpec::Get(key) => match lookup(m, key, now) {
            Some(v) => Value::BulkString(v),
            None => Value::Null,
        },
        CommandSpec::SetKey { .. } => Value::SimpleString("OK"@),
    }
}

/// The contents after command `c` runs on contents `m` at time `now`.
pub open spec fn contents_after(c: CommandSpec, m: Map<Seq<char>, Stored>, now: u128) -> Map<Seq<char>, Stored> {
    match c {
        CommandSpec::Get(key) => after_lookup(m, key, now),
        CommandSpec::SetKey { key, value, px } => m.insert(key, Stored { value: value, ttl: px, inserted_at: now }),
        _ => m,
    }
}

/// An outcome of the parser, seen through the command model.
pub open spec fn parsed(r: Result<Command, CommandError>) -> Result<CommandSpec, CommandError> {
    match r {
        Ok(c) => Ok(c@),
        Err(e) => Err(e),
    }
}

/// The views of the frames that `args` point to.
pub open spec fn arg_values(args: Seq<&RESPType>) -> Seq<Value> {
    args.map_values(|a: &RESPType| a@)
}

/// Whether `name` spells `word` in any letter case.
fn is_named(name: &str, word: &str) -> (r: bool)
    ensures
        r == names(name@, word@),
{
    let n = name.unicode_len();
    if n != word.unicode_len() {
        return false;
    }
    let mut i: usize = 0;
    while i < n
        invariant
            n == name@.len(),
            n == word@.len(),
            0 <= i <= n,
            forall|j: int| 0 <= j < i ==> folded(#[trigger] name@[j]) == word@[j] as u32,
        decreases n - i,
    {
        let c = name.get_char(i) as u32;
        let f = if 65 <= c && c <= 90 {
            c + 32
        } else {
            c
        };
        if f != word.get_char(i) as u32 {
            return false;
        }
        i = i + 1;
    }
    true
}

/// The text of the argument at position `i`, copied.
fn arg_string(args: &Vec<&RESPType>, i: usize) -> (r: Option<Option<String>>)
    ensures
        match r {
            None => arg_text(arg_values(args@), i as int) is None,
            Some(None) => arg_text(arg_values(args@), i as int) == Some(None::<Seq<char>>),
            Some(Some(s)) => arg_text(arg_values(args@), i as int) == Some(Some(s@)),
        },
{
    if i >= args.len() {
        return None;
    }
    match args[i].pack_string() {
        Ok(s) => Some(Some(s.to_owned())),
        Err(_) => Some(None),
    }
}

impl Command {
    /// The command that `name` and its arguments make, or why there is none.
    /// The name is matched in any letter case.
    pub fn new(name: &str, args: Vec<&RESPType>) -> (r: Result<Command, CommandError>)
        ensures
            parsed(r) == parse_command(name@, arg_values(args@)),
    {
        let ghost a = arg_values(args@);
        if is_named(name, "ping") {
            match arg_string(&args, 0) {
                None => Ok(Command::Ping(None)),
                Some(Some(m)) => Ok(Command::Ping(Some(m))),
                Some(None) => Err(CommandError::InvalidValue),
            }
        } else if is_named(name, "get") {
            match arg_string(&args, 0) {
                Some(Some(k)) => if args.len() == 1 {
                    Ok(Command::Get(k))
                } else {
                    Err(CommandError::InvalidKey)
                },
                _ => Err(CommandError::InvalidKey),
            }
        } else if is_named(name, "echo") {
            match arg_string(&args, 0) {
                Some(Some(m)) => if args.len() == 1 {
                    Ok(Command::Echo(m))
                } else {
                    Err(CommandError::InvalidMessage)
                },
                _ => Err(CommandError::InvalidMessage),
            }
        } else if is_named(name, "set") {
            match (arg_string(&args, 0), arg_string(&args, 1)) {
                (Some(Some(key)), Some(Some(value))) => {
                    let px = match arg_string(&args, 3) {
                        Some(Some(t)) => parse_unsigned(t.as_str().as_bytes()),
                        _ => None,
                    };
                    Ok(Command::SetKey { key, value, px })
                },
                _ => Err(CommandError::InvalidKeyOrValue),
            }
        } else {
            Err(CommandError::UnsupportedCommand)
        }
    }

    /// Runs this command on `cache` at time `now` (milliseconds) and gives
    /// the reply.
    pub fn run_at(&self, cache: &mut Cache, now: u128) -> (r: RESPType)
        requires
            old(cache).wf(),
        ensures
            final(cache).wf(),
            r@ == reply_of(self@, old(cache)@, now),
            final(cache)@ == contents_after(self@, old(cache)@, now),
    {
        match self {
            Command::Echo(msg) => RESPType::BulkString(msg.clone()),
            Command::Ping(data) => match data {
                Some(msg) => RESPType::BulkString(msg.clone()),
                None => RESPType::SimpleString(String::from_str("PONG")),
            },
            Command::Get(key) => match cache.get_at(key.as_str(), now) {
                Some(value) => RESPType::BulkString(value),
                None => RESPType::Null,
            },
            Command::SetKey { key, value, px } => {
                cache.set_at(key.clone(), value.clone(), *px, now);
                RESPType::SimpleString(String::from_str("OK"))
            },
        }
    }

    /// Runs this command on `cache` now and gives the reply.
    pub fn run(&self, cache: &mut Cache) -> (r: RESPType)
        requires
            old(cache).wf(),
        ensures
            final(cache).wf(),
            exists|t: u128|
                r@ == reply_of(self@, old(cache)@, t) && final(cache)@ == contents_after(
                    self@,
                    old(cache)@,
                    t,
                ),
    {
        let t = crate::utils::now();
        self.run_at(cache, t)
    }
}

} // verus!

verus! {

/// A read of a key that the cache does not hold replies with the null frame.
pub proof fn lemma_get_absent(m: Map<Seq<char>, Stored>, key: Seq<char>, now: u128)
    requires
        !m.contains_key(key),
    ensures
        reply_of(CommandSpec::Get(key), m, now) == Value::Null,
        contents_after(CommandSpec::Get(key), m, now) == m,
{
}

/// A read after a store without a lifetime replies with the stored value,
/// however much later it comes.
pub proof fn lemma_set_then_get(
    m: Map<Seq<char>, Stored>,
    key: Seq<char>,
    value: Seq<char>,
    set_time: u128,
    get_time: u128,
)
    ensures
        reply_of(
            CommandSpec::Get(key),
            contents_after(CommandSpec::SetKey { key, value, px: None }, m, set_time),
            get_time,
        ) == Value::BulkString(value),
{
}

/// A value stored with a lifetime of `ttl` milliseconds is read back while
/// no more than `ttl` milliseconds have passed, and is gone, as a null
/// reply, once more have.
pub proof fn lemma_expiry(
    m: Map<Seq<char>, Stored>,
    key: Seq<char>,
    value: Seq<char>,
    ttl: u64,
    set_time: u128,
    get_time: u128,
)
    ensures
        ({
            let stored = contents_after(CommandSpec::SetKey { key, value, px: Some(ttl) }, m, set_time);
            &&& get_time - set_time <= ttl ==> reply_of(CommandSpec::Get(key), stored, get_time)
                == Value::BulkString(value)
            &&& get_time - set_time > ttl ==> reply_of(CommandSpec::Get(key), stored, get_time)
                == Value::Null
            &&& get_time - set_time > ttl ==> !contents_after(CommandSpec::Get(key), stored, get_time).contains_key(key)
        }),
{
}

/// Commands run one at a time lose no update: when two clients each store a
/// value under one key, a later read by either sees the value of the store
/// that ran last, whatever ran in between on other keys.
pub proof fn lemma_last_store_wins(
    m: Map<Seq<char>, Stored>,
    key: Seq<char>,
    first: Seq<char>,
    second: Seq<char>,
    other: CommandSpec,
    t1: u128,
    t2: u128,
    t3: u128,
    t4: u128,
)
    requires
        match other {
            CommandSpec::Get(k) => k != key,
            CommandSpec::SetKey { key: k, .. } => k != key,
            _ => true,
        },
    ensures
        ({
            let after_first = contents_after(CommandSpec::SetKey { key, value: first, px: None }, m, t1);
            let after_second = contents_after(
                CommandSpec::SetKey { key, value: second, px: None },
                after_first,
                t2,
            );
            let after_other = contents_after(other, after_second, t3);
            reply_of(CommandSpec::Get(key), after_other, t4) == Value::BulkString(second)
        }),
{
    let after_first = contents_after(CommandSpec::SetKey { key, value: first, px: None }, m, t1);
    let after_second = contents_after(CommandSpec::SetKey { key, value: second, px: None }, after_first, t2);
    let after_other = contents_after(other, after_second, t3);
    assert(after_other.contains_key(key) && after_other[key] == after_second[key]);
}

} // verus!
