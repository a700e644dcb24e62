//! What a connection does with the bytes it has gathered so far: wait for
//! more, close, answer at once, or hand a command to the cache's owner.

use vstd::prelude::*;
use vstd::string::*;
use crate::commands::{error_text, Command, CommandSpec};
use crate::resp::{command_of, decode, DecodeError, RESPType, Value};

verus! {

/// The next thing a connection does.
#[derive(Debug, PartialEq, Eq)]
pub enum Step {
    /// No whole frame has arrived yet: read more bytes.
    NeedMore,
    /// The bytes can never form a command: close the connection.
    Close,
    /// Write this reply back; the frame took this many bytes.
    Reply(RESPType, usize),
    /// Run this command on the cache; the frame took this many bytes.
    Dispatch(Command, usize),
}

/// The mathematical content of a step.
pub enum StepSpec {
    NeedMore,
    Close,
    Reply(Value, nat),
    Dispatch(CommandSpec, nat),
}

impl View for Step {
    type V = StepSpec;

    open spec fn view(&self) -> StepSpec {
        match self {
            Step::NeedMore => StepSpec::NeedMore,
            Step::Close => StepSpec::Close,
            Step::Reply(v, n) => StepSpec::Reply(v@, *n as nat),
            Step::Dispatch(c, n) => StepSpec::Dispatch(c@, *n as nat),
        }
    }
}

/// The step for the bytes `b` that a connection has gathered: a command
/// line is an array frame; a refused one is answered with an error frame
/// and the connection goes on.
pub open spec fn step_of(b: Seq<u8>) -> StepSpec {
    match decode(b) {
        Err(DecodeError::Incomplete) => StepSpec::NeedMore,
        Err(DecodeError::Invalid) => StepSpec::Close,
        Ok((v, n)) => match v {
            Value::Array(_) => match command_of(v) {
                Ok(c) => StepSpec::Dispatch(c, n),
                Err(e) => StepSpec::Reply(Value::Error(error_text(e)), n),
            },
            _ => StepSpec::Close,
        },
    }
}

/// The step for the bytes that a connection has gathered so far.
pub fn next_step(buf: &[u8]) -> (r: Step)
    ensures
        r@ == step_of(buf@),
{
    match RESPType::unpack(buf) {
        Err(DecodeError::Incomplete) => Step::NeedMore,
        Err(DecodeError::Invalid) => Step::Close,
        Ok((frame, n)) => match frame {
            RESPType::Array(_) => match frame.to_command() {
                Ok(c) => Step::Dispatch(c, n),
                Err(e) => Step::Reply(RESPType::Error(e.message()), n),
            },
            _ => Step::Close,
        },
    }
}

/// The reply when the cache's owner cannot take a command now.
pub fn busy_reply() -> (r: RESPType)
    ensures
        r@ == Value::Error("Busy"@),
{
    RESPType::Error(String::from_str("Busy"))
}

} // verus!
