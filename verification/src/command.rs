//! Requests to the engine and their byte encoding, shared by the log and the
//! wire.

use crate::buffer::{frame_message, frozen};
use crate::codec::{
    block, block_end, field, field_text, fits, has_block, lemma_block_round_trip,
    lemma_field_round_trip, prefixed, read_str, write_str,
};
use crate::error::KvsError;
use bytes::Bytes;
use vstd::prelude::*;

verus! {

/// Tag of a `Put` payload.
pub const TAG_PUT: u8 = 0;

/// Tag of a `Get` payload.
pub const TAG_GET: u8 = 1;

/// Tag of a `Remove` payload.
pub const TAG_REMOVE: u8 = 2;

/// A request: store a value, look one up, or remove a key.
#[derive(Debug, Clone, PartialEq, Eq)]
pub enum Command {
    /// Store the value under the key.
    Put(String, String),
    /// Look up the key.
    Get(String),
    /// Remove the key.
    Remove(String),
}

/// A request as plain text values.
pub enum CommandView {
    Put(Seq<char>, Seq<char>),
    Get(Seq<char>),
    Remove(Seq<char>),
}

impl View for Command {
    type V = CommandView;

    open spec fn view(&self) -> CommandView {
        match self {
            Command::Put(key, value) => CommandView::Put(key@, value@),
            Command::Get(key) => CommandView::Get(key@),
            Command::Remove(key) => CommandView::Remove(key@),
        }
    }
}

impl CommandView {
    /// Whether every text of the request fits its length prefix.
    pub open spec fn encodable(self) -> bool {
        match self {
            CommandView::Put(key, value) => fits(key) && fits(value),
            CommandView::Get(key) => fits(key),
            CommandView::Remove(key) => fits(key),
        }
    }
}

/// The payload of a request: a tag byte, then the key, then for `Put` the
/// value.
pub open spec fn encode_command(c: CommandView) -> Seq<u8> {
    match c {
        CommandView::Put(key, value) => seq![TAG_PUT] + field(key) + field(value),
        CommandView::Get(key) => seq![TAG_GET] + field(key),
        CommandView::Remove(key) => seq![TAG_REMOVE] + field(key),
    }
}

/// The request that a payload holds, if it holds one: a known tag followed by
/// as many whole string fields as the tag asks for. Bytes after the last field
/// are not looked at.
pub open spec fn decode_command(b: Seq<u8>) -> Option<CommandView> {
    if b.len() == 0 || !has_block(b, 1) {
        None
    } else if b[0] == TAG_PUT {
        if has_block(b, block_end(b, 1)) {
            Some(CommandView::Put(field_text(b, 1), field_text(b, block_end(b, 1))))
        } else {
            None
        }
    } else if b[0] == TAG_GET {
        Some(CommandView::Get(field_text(b, 1)))
    } else if b[0] == TAG_REMOVE {
        Some(CommandView::Remove(field_text(b, 1)))
    } else {
        None
    }
}

/// Encoding a request and decoding the payload gives the request back,
/// whatever bytes follow the payload.
pub proof fn lemma_command_round_trip(c: CommandView, rest: Seq<u8>)
    requires
        c.encodable(),
    ensures
        decode_command(encode_command(c) + rest) == Some(c),
{
    let b = encode_command(c) + rest;
    match c {
        CommandView::Put(key, value) => {
            lemma_field_round_trip(seq![TAG_PUT], key, field(value) + rest);
            assert(b =~= seq![TAG_PUT] + field(key) + (field(value) + rest));
            lemma_field_round_trip(seq![TAG_PUT] + field(key), value, rest);
        },
        CommandView::Get(key) => {
            lemma_field_round_trip(seq![TAG_GET], key, rest);
        },
        CommandView::Remove(key) => {
            lemma_field_round_trip(seq![TAG_REMOVE], key, rest);
        },
    }
}

/// A request sent as a message is found whole at the front of what was
/// received, and is read back as the same request, whatever follows it.
pub proof fn lemma_command_message_round_trip(c: CommandView, rest: Seq<u8>)
    requires
        c.encodable(),
        encode_command(c).len() <= u64::MAX,
    ensures
        has_block(prefixed(encode_command(c)) + rest, 0),
        block_end(prefixed(encode_command(c)) + rest, 0) == prefixed(encode_command(c)).len(),
        decode_command(block(prefixed(encode_command(c)) + rest, 0)) == Some(c),
{
    let message = prefixed(encode_command(c));
    lemma_block_round_trip(Seq::empty(), encode_command(c), rest);
    assert(Seq::<u8>::empty() + message + rest =~= message + rest);
    lemma_command_round_trip(c, Seq::empty());
    assert(encode_command(c) + Seq::<u8>::empty() =~= encode_command(c));
}

impl Command {
    /// The payload of this request.
    pub fn to_bytes(&self) -> (buf: Vec<u8>)
        ensures
            buf@ == encode_command(self@),
            self@.encodable(),
    {
        let mut buf: Vec<u8> = Vec::new();
        match self {
            Command::Put(key, value) => {
                buf.push(TAG_PUT);
                write_str(&mut buf, key.as_str());
                write_str(&mut buf, value.as_str());
            },
            Command::Get(key) => {
                buf.push(TAG_GET);
                write_str(&mut buf, key.as_str());
            },
            Command::Remove(key) => {
                buf.push(TAG_REMOVE);
                write_str(&mut buf, key.as_str());
            },
        }
        buf
    }

    /// The message that carries this request: its length prefix, then its
    /// payload.
    pub fn into_frame(self) -> (bytes: Bytes)
        ensures
            frozen(bytes) == prefixed(encode_command(self@)),
    {
        let payload = self.to_bytes();
        frame_message(payload.as_slice())
    }

    /// Decodes a payload, or reports that it holds no request.
    pub fn try_from_bytes(buf: &[u8]) -> (r: Result<Command, KvsError>)
        ensures
            match decode_command(buf@) {
                Some(c) => r matches Ok(cmd) && cmd@ == c,
                None => r matches Err(KvsError::Corruption),
            },
    {
        if buf.len() == 0 {
            return Err(KvsError::Corruption);
        }
        let tag = buf[0];
        let (key, next) = match read_str(buf, 1) {
            Some(found) => found,
            None => {
                return Err(KvsError::Corruption);
            },
        };
        if tag == TAG_PUT {
            match read_str(buf, next) {
                Some((value, _)) => Ok(Command::Put(key, value)),
                None => Err(KvsError::Corruption),
            }
        } else if tag == TAG_GET {
            Ok(Command::Get(key))
        } else if tag == TAG_REMOVE {
            Ok(Command::Remove(key))
        } else {
            Err(KvsError::Corruption)
        }
    }

    /// Decodes a payload that is known to hold a request.
    pub fn from_bytes(buf: &Vec<u8>) -> (cmd: Command)
        requires
            decode_command(buf@) is Some,
        ensures
            Some(cmd@) == decode_command(buf@),
    {
        match Command::try_from_bytes(buf.as_slice()) {
            Ok(cmd) => cmd,
            Err(_) => vstd::pervasive::unreached(),
        }
    }
}

} // verus!
