//! The wire codec: the frame model, its byte encoding, and a decoder that
//! reports how many bytes a frame took, or why no frame could be read.

use vstd::prelude::*;
use vstd::utf8::*;
use vstd::string::*;
use vstd::slice::slice_subrange;
use crate::commands::{arg_values, string_of, Command, CommandError, CommandSpec, parse_command, parsed};
use crate::decimal::{is_digit, lemma_numeral_of, numeral_of, numeral_u64, parse_numeral, push_numeral};

verus! {

broadcast use vstd::std_specs::vec::group_vec_axioms;

/// A frame as it travels on the wire.
#[derive(Debug, PartialEq, Eq)]
pub enum RESPType {
    Null,
    Error(String),
    Integer(u64),
    BulkString(String),
    Array(Vec<RESPType>),
    SimpleString(String),
}

/// The mathematical content of a frame: texts as character sequences.
pub enum Value {
    Null,
    Error(Seq<char>),
    Integer(u64),
    BulkString(Seq<char>),
    Array(Seq<Value>),
    SimpleString(Seq<char>),
}

/// Why no frame could be read from a buffer.
#[derive(Debug, Clone, Copy, PartialEq, Eq, Structural)]
pub enum DecodeError {
    /// The bytes so far are cut short: more may complete a frame.
    Incomplete,
    /// The bytes can never start a well-formed frame.
    Invalid,
}

pub open spec fn value_of(r: RESPType) -> Value
    decreases r,
{
    match r {
        RESPType::Null => Value::Null,
        RESPType::Error(s) => Value::Error(s@),
        RESPType::Integer(i) => Value::Integer(i),
        RESPType::BulkString(s) => Value::BulkString(s@),
        RESPType::Array(items) => Value::Array(values_of(items@)),
        RESPType::SimpleString(s) => Value::SimpleString(s@),
    }
}

pub open spec fn values_of(items: Seq<RESPType>) -> Seq<Value>
    decreases items,
{
    if items.len() == 0 {
        seq![]
    } else {
        values_of(items.drop_last()).push(value_of(items.last()))
    }
}

pub proof fn lemma_values_of(items: Seq<RESPType>)
    ensures
        values_of(items).len() == items.len(),
        forall|i: int| 0 <= i < items.len() ==> #[trigger] values_of(items)[i] == items[i]@,
    decreases items.len(),
{
    if items.len() > 0 {
        lemma_values_of(items.drop_last());
    }
}

impl View for RESPType {
    type V = Value;

    open spec fn view(&self) -> Value {
        value_of(*self)
    }
}

pub open spec fn crlf() -> Seq<u8> {
    seq![13u8, 10u8]
}

/// True when a line terminator starts at index `i` of `b`.
pub open spec fn crlf_at(b: Seq<u8>, i: int) -> bool {
    0 <= i && i + 1 < b.len() && b[i] == 13 && b[i + 1] == 10
}

/// True when no line terminator occurs inside `b`.
pub open spec fn no_crlf(b: Seq<u8>) -> bool {
    forall|i: int| #![trigger b[i]] !crlf_at(b, i)
}

/// The wire form of a frame.
pub open spec fn encode(v: Value) -> Seq<u8>
    decreases v,
{
    match v {
        Value::Null => seq![36u8, 45u8, 49u8] + crlf(),
        Value::SimpleString(s) => seq![43u8] + encode_utf8(s) + crlf(),
        Value::Error(s) => seq![45u8] + encode_utf8(s) + crlf(),
        Value::Integer(i) => seq![58u8] + numeral_of(i as nat) + crlf(),
        Value::BulkString(s) => seq![36u8] + numeral_of(encode_utf8(s).len()) + crlf() + encode_utf8(s)
            + crlf(),
        Value::Array(items) => seq![42u8] + numeral_of(items.len()) + crlf() + encode_items(items),
    }
}

/// The wire forms of `items`, one after another.
pub open spec fn encode_items(items: Seq<Value>) -> Seq<u8>
    decreases items,
{
    if items.len() == 0 {
        seq![]
    } else {
        encode_items(items.drop_last()) + encode(items.last())
    }
}

/// True when a frame survives the trip through the wire: simple strings and
/// errors hold no line terminator, and every length fits in 64 bits.
pub open spec fn representable(v: Value) -> bool
    decreases v,
{
    match v {
        Value::SimpleString(s) => no_crlf(encode_utf8(s)),
        Value::Error(s) => no_crlf(encode_utf8(s)),
        Value::BulkString(s) => encode_utf8(s).len() <= u64::MAX,
        Value::Array(items) => items.len() <= u64::MAX && forall|i: int|
            0 <= i < items.len() ==> representable(#[trigger] items[i]),
        _ => true,
    }
}

/// The first index at or after `from` where a line terminator starts.
pub open spec fn find_crlf(b: Seq<u8>, from: int) -> Option<int>
    decreases b.len() - from,
{
    if from < 0 || from + 1 >= b.len() {
        None
    } else if crlf_at(b, from) {
        Some(from)
    } else {
        find_crlf(b, from + 1)
    }
}

pub proof fn lemma_find_crlf(b: Seq<u8>, from: int)
    requires
        0 <= from,
    ensures
        match find_crlf(b, from) {
            Some(e) => from <= e && crlf_at(b, e) && forall|j: int|
                from <= j < e ==> !#[trigger] crlf_at(b, j),
            None => forall|j: int| from <= j ==> !#[trigger] crlf_at(b, j),
        },
    decreases b.len() - from,
{
    if from + 1 < b.len() && !crlf_at(b, from) {
        lemma_find_crlf(b, from + 1);
    }
}

/// True when `t` is the first byte of some frame.
pub open spec fn is_tag(t: u8) -> bool {
    t == 43 || t == 45 || t == 58 || t == 36 || t == 42
}

/// How many bytes of `b` lie at or after `pos`.
pub open spec fn remaining(b: Seq<u8>, pos: nat) -> nat {
    if pos < b.len() {
        (b.len() - pos) as nat
    } else {
        0
    }
}

/// A text read from the wire, when its bytes are well-formed UTF-8.
pub open spec fn text_from(bytes: Seq<u8>) -> Option<Seq<char>> {
    if valid_utf8(bytes) {
        Some(decode_utf8(bytes))
    } else {
        None
    }
}

/// The frame that starts at `pos` in `b`, with the number of bytes it takes.
pub open spec fn decode_at(b: Seq<u8>, pos: nat) -> Result<(Value, nat), DecodeError>
    decreases remaining(b, pos), 0nat, 0nat,
{
    if pos >= b.len() {
        Err(DecodeError::Incomplete)
    } else if !is_tag(b[pos as int]) {
        Err(DecodeError::Invalid)
    } else {
        match find_crlf(b, pos + 1int) {
            None => Err(DecodeError::Incomplete),
            Some(e) => {
                proof {
                    lemma_find_crlf(b, pos + 1int);
                }
                let tag = b[pos as int];
                let line = b.subrange(pos + 1int, e);
                let next = (e + 2) as nat;
                let header = (next - pos) as nat;
                if tag == 43 || tag == 45 {
                    match text_from(line) {
                        None => Err(DecodeError::Invalid),
                        Some(t) => Ok(
                            (
                                if tag == 43 {
                                    Value::SimpleString(t)
                                } else {
                                    Value::Error(t)
                                },
                                header,
                            ),
                        ),
                    }
                } else if tag == 58 {
                    match numeral_u64(line) {
                        None => Err(DecodeError::Invalid),
                        Some(i) => Ok((Value::Integer(i), header)),
                    }
                } else if tag == 36 {
                    if line == seq![45u8, 49u8] {
                        Ok((Value::Null, header))
                    } else {
                        match numeral_u64(line) {
                            None => Err(DecodeError::Invalid),
                            Some(n) => if next + n + 2 > b.len() {
                                Err(DecodeError::Incomplete)
                            } else if !crlf_at(b, next + n) {
                                Err(DecodeError::Invalid)
                            } else {
                                match text_from(b.subrange(next as int, next + n)) {
                                    None => Err(DecodeError::Invalid),
                                    Some(t) => Ok((Value::BulkString(t), (header + n + 2) as nat)),
                                }
                            },
                        }
                    }
                } else {
                    match numeral_u64(line) {
                        None => Err(DecodeError::Invalid),
                        Some(count) => match decode_items_at(b, next, count as nat) {
                            Err(err) => Err(err),
                            Ok((items, used)) => Ok((Value::Array(items), header + used)),
                        },
                    }
                }
            },
        }
    }
}

/// `count` frames one after another from `pos` in `b`, with the number of
/// bytes they take together.
pub open spec fn decode_items_at(b: Seq<u8>, pos: nat, count: nat) -> Result<(Seq<Value>, nat), DecodeError>
    decreases remaining(b, pos), 1nat, count,
{
    if count == 0 {
        Ok((seq![], 0))
    } else {
        match decode_at(b, pos) {
            Err(err) => Err(err),
            Ok((v, n)) => match decode_items_at(b, pos + n, (count - 1) as nat) {
                Err(err) => Err(err),
                Ok((vs, m)) => Ok((seq![v] + vs, n + m)),
            },
        }
    }
}

/// The frame at the front of `b`, with the number of bytes it takes.
pub open spec fn decode(b: Seq<u8>) -> Result<(Value, nat), DecodeError> {
    decode_at(b, 0)
}

/// The command that a frame spells, or why it spells none.
pub open spec fn command_of(v: Value) -> Result<CommandSpec, CommandError> {
    match v {
        Value::Array(items) => if items.len() == 0 {
            Err(CommandError::NotACommand)
        } else {
            match items[0] {
                Value::BulkString(name) => parse_command(name, items.drop_first()),
                _ => Err(CommandError::NotACommand),
            }
        },
        _ => Err(CommandError::NotAnArray),
    }
}

/// An outcome of the decoder, seen through the frame model.
pub open spec fn decoded(r: Result<(RESPType, usize), DecodeError>) -> Result<(Value, nat), DecodeError> {
    match r {
        Ok((v, n)) => Ok((v@, n as nat)),
        Err(err) => Err(err),
    }
}

/// Frames `vs`, taking `used` bytes, followed by what `rest` decodes to.
pub open spec fn followed_by(vs: Seq<Value>, used: nat, rest: Result<(Seq<Value>, nat), DecodeError>) -> Result<(Seq<Value>, nat), DecodeError> {
    match rest {
        Ok((ws, m)) => Ok((vs + ws, used + m)),
        Err(err) => Err(err),
    }
}

/// Relies on std::str::from_utf8: it accepts exactly the well-formed UTF-8
/// byte strings, and the text it hands back is made of those bytes.
#[verifier::external_body]
fn utf8_text(bytes: &[u8]) -> (r: Option<&str>)
    ensures
        match r {
            Some(s) => valid_utf8(bytes@) && encode_utf8(s@) == bytes@,
            None => !valid_utf8(bytes@),
        },
{
    std::str::from_utf8(bytes).ok()
}

/// The text that `bytes` encode, when they are well-formed UTF-8.
fn text_of(bytes: &[u8]) -> (r: Option<String>)
    ensures
        match r {
            Some(s) => text_from(bytes@) == Some(s@),
            None => text_from(bytes@) is None,
        },
{
    match utf8_text(bytes) {
        Some(s) => {
            proof {
                encode_utf8_decode_utf8(s@);
            }
            Some(s.to_owned())
        },
        None => None,
    }
}

/// The index of the first line terminator at or after `from`.
fn take_until_crlf(bytes: &[u8], from: usize) -> (r: Option<usize>)
    requires
        from <= bytes@.len(),
    ensures
        match r {
            Some(e) => find_crlf(bytes@, from as int) == Some(e as int),
            None => find_crlf(bytes@, from as int) is None,
        },
{
    let mut n: usize = from;
    while bytes.len() - n >= 2
        invariant
            from <= n <= bytes@.len(),
            find_crlf(bytes@, from as int) == find_crlf(bytes@, n as int),
        decreases bytes.len() - n,
    {
        if bytes[n] == 13 && bytes[n + 1] == 10 {
            return Some(n);
        }
        n = n + 1;
    }
    None
}

fn push_crlf(out: &mut Vec<u8>)
    ensures
        final(out)@ == old(out)@ + crlf(),
{
    out.push(13u8);
    out.push(10u8);
    assert(final(out)@ =~= old(out)@ + crlf());
}

fn push_text(s: &String, out: &mut Vec<u8>)
    ensures
        final(out)@ == old(out)@ + encode_utf8(s@),
{
    out.extend_from_slice(s.as_str().as_bytes());
}

impl RESPType {
    /// Appends the wire form of this frame to `out`.
    pub fn pack_into(&self, out: &mut Vec<u8>)
        ensures
            final(out)@ == old(out)@ + encode(self@),
        decreases self,
    {
        let ghost start = out@;
        match self {
            RESPType::BulkString(s) => {
                out.push(36u8);
                let bytes = s.as_str().as_bytes();
                push_numeral(bytes.len() as u64, out);
                push_crlf(out);
                out.extend_from_slice(bytes);
                push_crlf(out);
            },
            RESPType::SimpleString(s) => {
                out.push(43u8);
                push_text(s, out);
                push_crlf(out);
            },
            RESPType::Error(s) => {
                out.push(45u8);
                push_text(s, out);
                push_crlf(out);
            },
            RESPType::Integer(i) => {
                out.push(58u8);
                push_numeral(*i, out);
                push_crlf(out);
            },
            RESPType::Array(items) => {
                out.push(42u8);
                push_numeral(items.len() as u64, out);
                push_crlf(out);
                let ghost header = out@;
                let mut i: usize = 0;
                while i < items.len()
                    invariant
                        0 <= i <= items@.len(),
                        *self == RESPType::Array(*items),
                        out@ == header + encode_items(values_of(items@.take(i as int))),
                    decreases items.len() - i,
                {
                    proof {
                        assert(decreases_to!(*self => self->Array_0));
                        assert(decreases_to!(*items => items@));
                        assert(decreases_to!(items@ => items@[i as int]));
                    }
                    items[i].pack_into(out);
                    proof {
                        let t = items@.take(i as int + 1);
                        assert(t.drop_last() =~= items@.take(i as int));
                        assert(t.last() == items@[i as int]);
                        let vs = values_of(t);
                        assert(vs.drop_last() =~= values_of(items@.take(i as int)));
                        assert(vs.last() == items@[i as int]@);
                        assert(out@ =~= header + encode_items(vs));
                    }
                    i = i + 1;
                }
                assert(items@.take(i as int) =~= items@);
                proof {
                    lemma_values_of(items@);
                }
            },
            RESPType::Null => {
                out.push(36u8);
                out.push(45u8);
                out.push(49u8);
                push_crlf(out);
            },
        }
        assert(out@ =~= start + encode(self@));
    }

    /// Reads the frame that starts at `pos`: the frame and the number of
    /// bytes it takes, or why none can be read there.
    fn unpack_at(bytes: &[u8], pos: usize) -> (r: Result<(RESPType, usize), DecodeError>)
        requires
            pos <= bytes@.len(),
        ensures
            decoded(r) == decode_at(bytes@, pos as nat),
            r matches Ok((_, n)) ==> pos + n <= bytes.len(),
        decreases bytes@.len() - pos,
    {
        if pos >= bytes.len() {
            return Err(DecodeError::Incomplete);
        }
        let tag = bytes[pos];
        if tag != 43 && tag != 45 && tag != 58 && tag != 36 && tag != 42 {
            return Err(DecodeError::Invalid);
        }
        let e = match take_until_crlf(bytes, pos + 1) {
            None => {
                return Err(DecodeError::Incomplete);
            },
            Some(e) => e,
        };
        proof {
            lemma_find_crlf(bytes@, pos + 1int);
        }
        let line = slice_subrange(bytes, pos + 1, e);
        let next = e + 2;
        let header = next - pos;
        if tag == 43 || tag == 45 {
            match text_of(line) {
                None => Err(DecodeError::Invalid),
                Some(t) => {
                    if tag == 43 {
                        Ok((RESPType::SimpleString(t), header))
                    } else {
                        Ok((RESPType::Error(t), header))
                    }
                },
            }
        } else if tag == 58 {
            match parse_numeral(line) {
                None => Err(DecodeError::Invalid),
                Some(i) => Ok((RESPType::Integer(i), header)),
            }
        } else if tag == 36 {
            if line.len() == 2 && line[0] == 45 && line[1] == 49 {
                assert(line@ =~= seq![45u8, 49u8]);
                return Ok((RESPType::Null, header));
            }
            assert(line@ != seq![45u8, 49u8]);
            match parse_numeral(line) {
                None => Err(DecodeError::Invalid),
                Some(n) => {
                    let room = bytes.len() - next;
                    if n > room as u64 || room - (n as usize) < 2 {
                        return Err(DecodeError::Incomplete);
                    }
                    let n = n as usize;
                    if bytes[next + n] != 13 || bytes[next + n + 1] != 10 {
                        return Err(DecodeError::Invalid);
                    }
                    match text_of(slice_subrange(bytes, next, next + n)) {
                        None => Err(DecodeError::Invalid),
                        Some(t) => Ok((RESPType::BulkString(t), header + n + 2)),
                    }
                },
            }
        } else {
            match parse_numeral(line) {
                None => Err(DecodeError::Invalid),
                Some(count) => {
                    let mut items: Vec<RESPType> = Vec::new();
                    let mut used: usize = header;
                    let mut i: u64 = 0;
                    let ghost whole = decode_items_at(bytes@, next as nat, count as nat);
                    assert(decode_at(bytes@, pos as nat) == match whole {
                        Ok((vs, u)) => Ok((Value::Array(vs), (header + u) as nat)),
                        Err(err) => Err(err),
                    });
                    while i < count
                        invariant
                            0 <= i <= count,
                            whole == decode_items_at(bytes@, next as nat, count as nat),
                            decode_at(bytes@, pos as nat) == match whole {
                                Ok((vs, u)) => Ok((Value::Array(vs), (header + u) as nat)),
                                Err(err) => Err(err),
                            },
                            pos < next,
                            next == pos + header,
                            header <= used,
                            pos + used <= bytes.len(),
                            decode_items_at(bytes@, next as nat, count as nat) == followed_by(
                                values_of(items@),
                                (used - header) as nat,
                                decode_items_at(bytes@, (pos + used) as nat, (count - i) as nat),
                            ),
                        decreases count - i,
                    {
                        match RESPType::unpack_at(bytes, pos + used) {
                            Err(err) => {
                                assert(decode_items_at(bytes@, (pos + used) as nat, (count - i) as nat)
                                    == Err::<(Seq<Value>, nat), DecodeError>(err));
                                return Err(err);
                            },
                            Ok((v, n)) => {
                                proof {
                                    let ghost vs = values_of(items@.push(v));
                                    assert(items@.push(v).drop_last() =~= items@);
                                    assert(vs =~= values_of(items@).push(v@));
                                    let rest = decode_items_at(bytes@, (pos + used + n) as nat, (count - i - 1) as nat);
                                    match rest {
                                        Ok((ws, m)) => {
                                            assert(values_of(items@) + (seq![v@] + ws) =~= vs + ws);
                                        },
                                        Err(_) => {},
                                    }
                                }
                                items.push(v);
                                used = used + n;
                                i = i + 1;
                            },
                        }
                    }
                    assert(values_of(items@) + Seq::<Value>::empty() =~= values_of(items@));
                    Ok((RESPType::Array(items), used))
                },
            }
        }
    }

    /// Reads the frame at the front of `bytes`: the frame and the number of
    /// bytes it takes, so that the next frame starts right after; or
    /// `Incomplete` when more bytes may yet complete it, `Invalid` when none
    /// can.
    pub fn unpack(bytes: &[u8]) -> (r: Result<(RESPType, usize), DecodeError>)
        ensures
            decoded(r) == decode(bytes@),
            r matches Ok((_, n)) ==> n <= bytes@.len(),
    {
        RESPType::unpack_at(bytes, 0)
    }

    /// The text this frame carries, when it is a simple or a bulk string.
    pub fn pack_string(&self) -> (r: Result<&str, CommandError>)
        ensures
            match r {
                Ok(s) => string_of(self@) == Some(s@),
                Err(e) => string_of(self@) is None && e == CommandError::NotAString,
            },
    {
        match self {
            RESPType::BulkString(s) => Ok(s.as_str()),
            RESPType::SimpleString(s) => Ok(s.as_str()),
            _ => Err(CommandError::NotAString),
        }
    }

    /// The command that this frame spells: an array whose first item, a
    /// bulk string, names the command, and whose other items are its
    /// arguments.
    pub fn to_command(&self) -> (r: Result<Command, CommandError>)
        ensures
            parsed(r) == command_of(self@),
    {
        match self {
            RESPType::Array(elements) => {
                proof {
                    lemma_values_of(elements@);
                }
                if elements.len() == 0 {
                    return Err(CommandError::NotACommand);
                }
                match &elements[0] {
                    RESPType::BulkString(name) => {
                        let mut args: Vec<&RESPType> = Vec::new();
                        let mut i: usize = 1;
                        while i < elements.len()
                            invariant
                                1 <= i <= elements@.len(),
                                args@.len() == i - 1,
                                forall|j: int| 0 <= j < i - 1 ==> *#[trigger] args@[j] == elements@[j + 1],
                            decreases elements.len() - i,
                        {
                            args.push(&elements[i]);
                            i = i + 1;
                        }
                        proof {
                            let vs = values_of(elements@);
                            assert(arg_values(args@) =~= vs.drop_first());
                        }
                        Command::new(name.as_str(), args)
                    },
                    _ => Err(CommandError::NotACommand),
                }
            },
            _ => Err(CommandError::NotAnArray),
        }
    }

    /// The wire form of this frame.
    pub fn pack(&self) -> (r: Vec<u8>)
        ensures
            r@ == encode(self@),
    {
        let mut out: Vec<u8> = Vec::new();
        self.pack_into(&mut out);
        assert(out@ =~= encode(self@));
        out
    }
}

} // verus!

verus! {

proof fn lemma_sub(b: Seq<u8>, pos: int, enc: Seq<u8>, i: int, j: int)
    requires
        0 <= pos,
        pos + enc.len() <= b.len(),
        b.subrange(pos, pos + enc.len()) == enc,
        0 <= i <= j <= enc.len(),
    ensures
        b.subrange(pos + i, pos + j) == enc.subrange(i, j),
{
    assert forall|k: int| 0 <= k < j - i implies b.subrange(pos + i, pos + j)[k] == enc.subrange(i, j)[k] by {
        assert(b[pos + i + k] == b.subrange(pos, pos + enc.len())[i + k]);
    }
    assert(b.subrange(pos + i, pos + j) =~= enc.subrange(i, j));
}

proof fn lemma_find_crlf_at(b: Seq<u8>, from: int, e: int)
    requires
        0 <= from <= e,
        crlf_at(b, e),
        forall|j: int| from <= j < e ==> !#[trigger] crlf_at(b, j),
    ensures
        find_crlf(b, from) == Some(e),
    decreases e - from,
{
    if from < e {
        lemma_find_crlf_at(b, from + 1, e);
    }
}

/// A line of `content` after a tag byte at `pos` ends where `content` ends.
proof fn lemma_line(b: Seq<u8>, pos: int, content: Seq<u8>)
    requires
        0 <= pos,
        b.subrange(pos + 1, pos + 1 + content.len()) == content,
        crlf_at(b, pos + 1 + content.len()),
        no_crlf(content),
    ensures
        find_crlf(b, pos + 1) == Some(pos + 1 + content.len()),
{
    let e = pos + 1 + content.len();
    assert forall|j: int| pos + 1 <= j < e implies !#[trigger] crlf_at(b, j) by {
        assert(b[j] == content[j - pos - 1]);
        if j + 1 < e {
            assert(b[j + 1] == content[j + 1 - pos - 1]);
            assert(!crlf_at(content, j - pos - 1));
        } else {
            assert(b[j + 1] == 13);
        }
    }
    lemma_find_crlf_at(b, pos + 1, e);
}

proof fn lemma_numeral_line(n: nat)
    ensures
        no_crlf(numeral_of(n)),
        numeral_of(n) != seq![45u8, 49u8],
        n <= u64::MAX ==> numeral_u64(numeral_of(n)) == Some(n as u64),
{
    lemma_numeral_of(n);
    let s = numeral_of(n);
    assert forall|i: int| !#[trigger] crlf_at(s, i) by {
        if 0 <= i < s.len() {
            assert(is_digit(s[i]));
        }
    }
    assert(is_digit(s[0]));
}

pub proof fn lemma_encode_items_cons(v: Value, vs: Seq<Value>)
    ensures
        encode_items(seq![v] + vs) == encode(v) + encode_items(vs),
    decreases vs.len(),
{
    let whole = seq![v] + vs;
    if vs.len() == 0 {
        assert(whole.drop_last() =~= Seq::<Value>::empty());
        assert(encode_items(Seq::<Value>::empty()) == Seq::<u8>::empty());
        assert(encode_items(whole) =~= encode(v) + encode_items(vs));
    } else {
        lemma_encode_items_cons(v, vs.drop_last());
        assert(whole.drop_last() =~= seq![v] + vs.drop_last());
        assert(encode_items(whole) =~= encode(v) + encode_items(vs));
    }
}

#[verifier::rlimit(40)]
proof fn lemma_decode_value(b: Seq<u8>, pos: nat, v: Value)
    requires
        representable(v),
        pos + encode(v).len() <= b.len(),
        b.subrange(pos as int, pos + encode(v).len() as int) == encode(v),
    ensures
        decode_at(b, pos) == Ok::<(Value, nat), DecodeError>((v, encode(v).len())),
    decreases v, 0nat,
{
    broadcast use encode_utf8_valid_utf8, encode_utf8_decode_utf8;

    let enc = encode(v);
    let p = pos as int;
    assert(b[p] == b.subrange(p, p + enc.len())[0]);
    match v {
        Value::Null => {
            let content = seq![45u8, 49u8];
            assert(enc =~= seq![36u8] + content + crlf());
            lemma_sub(b, p, enc, 1, 3);
            assert(enc.subrange(1, 3) =~= content);
            assert(b[p + 3] == b.subrange(p, p + enc.len())[3]);
            assert(b[p + 4] == b.subrange(p, p + enc.len())[4]);
            lemma_line(b, p, content);
        },
        Value::SimpleString(s) => {
            let content = encode_utf8(s);
            let l = content.len() as int;
            lemma_sub(b, p, enc, 1, 1 + l);
            assert(enc.subrange(1, 1 + l) =~= content);
            assert(b[p + 1 + l] == b.subrange(p, p + enc.len())[1 + l]);
            assert(b[p + 2 + l] == b.subrange(p, p + enc.len())[2 + l]);
            lemma_line(b, p, content);
        },
        Value::Error(s) => {
            let content = encode_utf8(s);
            let l = content.len() as int;
            lemma_sub(b, p, enc, 1, 1 + l);
            assert(enc.subrange(1, 1 + l) =~= content);
            assert(b[p + 1 + l] == b.subrange(p, p + enc.len())[1 + l]);
            assert(b[p + 2 + l] == b.subrange(p, p + enc.len())[2 + l]);
            lemma_line(b, p, content);
        },
        Value::Integer(i) => {
            let content = numeral_of(i as nat);
            let l = content.len() as int;
            lemma_numeral_line(i as nat);
            lemma_sub(b, p, enc, 1, 1 + l);
            assert(enc.subrange(1, 1 + l) =~= content);
            assert(b[p + 1 + l] == b.subrange(p, p + enc.len())[1 + l]);
            assert(b[p + 2 + l] == b.subrange(p, p + enc.len())[2 + l]);
            lemma_line(b, p, content);
        },
        Value::BulkString(s) => {
            let t = encode_utf8(s);
            let content = numeral_of(t.len());
            let l = content.len() as int;
            let n = t.len() as int;
            lemma_numeral_line(t.len());
            lemma_sub(b, p, enc, 1, 1 + l);
            assert(enc.subrange(1, 1 + l) =~= content);
            assert(b[p + 1 + l] == b.subrange(p, p + enc.len())[1 + l]);
            assert(b[p + 2 + l] == b.subrange(p, p + enc.len())[2 + l]);
            lemma_line(b, p, content);
            lemma_sub(b, p, enc, 3 + l, 3 + l + n);
            assert(enc.subrange(3 + l, 3 + l + n) =~= t);
            assert(b[p + 3 + l + n] == b.subrange(p, p + enc.len())[3 + l + n]);
            assert(b[p + 4 + l + n] == b.subrange(p, p + enc.len())[4 + l + n]);
        },
        Value::Array(items) => {
            let content = numeral_of(items.len());
            let l = content.len() as int;
            let rest = encode_items(items);
            lemma_numeral_line(items.len());
            lemma_sub(b, p, enc, 1, 1 + l);
            assert(enc.subrange(1, 1 + l) =~= content);
            assert(b[p + 1 + l] == b.subrange(p, p + enc.len())[1 + l]);
            assert(b[p + 2 + l] == b.subrange(p, p + enc.len())[2 + l]);
            lemma_line(b, p, content);
            lemma_sub(b, p, enc, 3 + l, enc.len() as int);
            assert(enc.subrange(3 + l, enc.len() as int) =~= rest);
            lemma_decode_items(b, (p + 3 + l) as nat, items);
        },
    }
}

proof fn lemma_decode_items(b: Seq<u8>, pos: nat, items: Seq<Value>)
    requires
        forall|i: int| 0 <= i < items.len() ==> representable(#[trigger] items[i]),
        pos + encode_items(items).len() <= b.len(),
        b.subrange(pos as int, pos + encode_items(items).len() as int) == encode_items(items),
    ensures
        decode_items_at(b, pos, items.len()) == Ok::<(Seq<Value>, nat), DecodeError>(
            (items, encode_items(items).len()),
        ),
    decreases items, 1nat,
{
    if items.len() > 0 {
        let v = items[0];
        let tail = items.drop_first();
        assert(items =~= seq![v] + tail);
        lemma_encode_items_cons(v, tail);
        let ev = encode(v);
        let et = encode_items(tail);
        let all = encode_items(items);
        let p = pos as int;
        lemma_sub(b, p, all, 0, ev.len() as int);
        assert(all.subrange(0, ev.len() as int) =~= ev);
        lemma_decode_value(b, pos, v);
        lemma_sub(b, p, all, ev.len() as int, all.len() as int);
        assert(all.subrange(ev.len() as int, all.len() as int) =~= et);
        assert forall|i: int| 0 <= i < tail.len() implies representable(#[trigger] tail[i]) by {
            assert(tail[i] == items[i + 1]);
        }
        lemma_decode_items(b, pos + ev.len(), tail);
    } else {
        assert(items =~= Seq::<Value>::empty());
    }
}

/// Decoding the wire form of a representable frame gives the frame back and
/// reports the whole length of that wire form as consumed.
pub proof fn lemma_round_trip(v: Value)
    requires
        representable(v),
    ensures
        decode(encode(v)) == Ok::<(Value, nat), DecodeError>((v, encode(v).len())),
{
    let enc = encode(v);
    assert(enc.subrange(0, enc.len() as int) =~= enc);
    lemma_decode_value(enc, 0, v);
}

/// Frames sent one after another on a stream come apart again: the first
/// decodes to itself, and what follows it is left for the next read.
pub proof fn lemma_round_trip_stream(v: Value, rest: Seq<u8>)
    requires
        representable(v),
    ensures
        decode(encode(v) + rest) == Ok::<(Value, nat), DecodeError>((v, encode(v).len())),
{
    let enc = encode(v);
    let b = enc + rest;
    assert(b.subrange(0, enc.len() as int) =~= enc);
    lemma_decode_value(b, 0, v);
}

} // verus!
