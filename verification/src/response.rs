//! Replies of the server and their byte encoding.

use crate::buffer::{frame_message, frozen};
use crate::codec::{
    block, block_end, field, field_text, fits, has_block, lemma_block_round_trip,
    lemma_field_round_trip, prefixed, read_str, write_str,
};
use crate::error::KvsError;
use bytes::Bytes;
use vstd::prelude::*;

verus! {

/// Tag of a `Success` payload.
pub const TAG_SUCCESS: u8 = 0;

/// Tag of an `Error` payload.
pub const TAG_ERROR: u8 = 1;

/// A reply: success, with the value where one was asked for and found, or
/// an error message.
#[derive(Debug, Clone, PartialEq, Eq)]
pub enum Response {
    /// The request was carried out; a lookup that found a value carries it.
    Success(Option<String>),
    /// The request failed; the text says why.
    Error(String),
}

/// A reply as plain text values.
pub enum ResponseView {
    Success(Option<Seq<char>>),
    Error(Seq<char>),
}

impl View for Response {
    type V = ResponseView;

    open spec fn view(&self) -> ResponseView {
        match self {
            Response::Success(Some(value)) => ResponseView::Success(Some(value@)),
            Response::Success(None) => ResponseView::Success(None),
            Response::Error(text) => ResponseView::Error(text@),
        }
    }
}

impl ResponseView {
    /// The one text that the payload carries: the value, empty where there is
    /// none, or the error message.
    pub open spec fn text(self) -> Seq<char> {
        match self {
            ResponseView::Success(Some(value)) => value,
            ResponseView::Success(None) => Seq::empty(),
            ResponseView::Error(text) => text,
        }
    }

    /// Whether the text of the reply fits its length prefix.
    pub open spec fn encodable(self) -> bool {
        fits(self.text())
    }

    /// Whether the reply survives the wire unchanged. An empty value is sent
    /// as the empty text, which a reader takes for "no value".
    pub open spec fn distinct_on_wire(self) -> bool {
        self != ResponseView::Success(Some(Seq::<char>::empty()))
    }
}

/// The payload of a reply: a tag byte, then one string field.
pub open spec fn encode_response(r: ResponseView) -> Seq<u8> {
    match r {
        ResponseView::Success(_) => seq![TAG_SUCCESS] + field(r.text()),
        ResponseView::Error(_) => seq![TAG_ERROR] + field(r.text()),
    }
}

/// The reply that a payload holds, if it holds one. An empty text under the
/// success tag means that there is no value.
pub open spec fn decode_response(b: Seq<u8>) -> Option<ResponseView> {
    if b.len() == 0 || !has_block(b, 1) {
        None
    } else if b[0] == TAG_SUCCESS {
        if field_text(b, 1).len() == 0 {
            Some(ResponseView::Success(None))
        } else {
            Some(ResponseView::Success(Some(field_text(b, 1))))
        }
    } else if b[0] == TAG_ERROR {
        Some(ResponseView::Error(field_text(b, 1)))
    } else {
        None
    }
}

/// Encoding a reply and decoding the payload gives the reply back, whatever
/// bytes follow the payload. The one reply left out is a success with an
/// empty value, which is read back as a success without a value.
pub proof fn lemma_response_round_trip(r: ResponseView, rest: Seq<u8>)
    requires
        r.encodable(),
        r.distinct_on_wire(),
    ensures
        decode_response(encode_response(r) + rest) == Some(r),
{
    match r {
        ResponseView::Success(_) => {
            lemma_field_round_trip(seq![TAG_SUCCESS], r.text(), rest);
        },
        ResponseView::Error(_) => {
            lemma_field_round_trip(seq![TAG_ERROR], r.text(), rest);
        },
    }
}

/// A success with an empty value is read back as a success without a value.
pub proof fn lemma_empty_value_reads_as_none(rest: Seq<u8>)
    ensures
        decode_response(
            encode_response(ResponseView::Success(Some(Seq::<char>::empty()))) + rest,
        ) == Some(ResponseView::Success(None)),
{
    let empty = Seq::<char>::empty();
    assert(vstd::utf8::encode_utf8(empty).len() == 0) by {
        reveal_with_fuel(vstd::utf8::encode_utf8, 1);
    }
    lemma_field_round_trip(seq![TAG_SUCCESS], empty, rest);
}

/// A reply sent as a message is found whole at the front of what was
/// received, and is read back as the same reply, whatever follows it. The
/// one reply left out is a success with an empty value.
pub proof fn lemma_response_message_round_trip(r: ResponseView, rest: Seq<u8>)
    requires
        r.encodable(),
        r.distinct_on_wire(),
        encode_response(r).len() <= u64::MAX,
    ensures
        has_block(prefixed(encode_response(r)) + rest, 0),
        block_end(prefixed(encode_response(r)) + rest, 0) == prefixed(encode_response(r)).len(),
        decode_response(block(prefixed(encode_response(r)) + rest, 0)) == Some(r),
{
    let message = prefixed(encode_response(r));
    lemma_block_round_trip(Seq::empty(), encode_response(r), rest);
    assert(Seq::<u8>::empty() + message + rest =~= message + rest);
    lemma_response_round_trip(r, Seq::empty());
    assert(encode_response(r) + Seq::<u8>::empty() =~= encode_response(r));
}

impl Response {
    /// The payload of this reply.
    pub fn to_bytes(&self) -> (buf: Vec<u8>)
        ensures
            buf@ == encode_response(self@),
            self@.encodable(),
    {
        let mut buf: Vec<u8> = Vec::new();
        match self {
            Response::Success(Some(value)) => {
                buf.push(TAG_SUCCESS);
                write_str(&mut buf, value.as_str());
            },
            Response::Success(None) => {
                buf.push(TAG_SUCCESS);
                write_str(&mut buf, "");
                proof {
                    reveal_strlit("");
                    assert(""@ =~= Seq::<char>::empty());
                }
            },
            Response::Error(text) => {
                buf.push(TAG_ERROR);
                write_str(&mut buf, text.as_str());
            },
        }
        buf
    }

    /// The message that carries this reply: its length prefix, then its
    /// payload.
    pub fn into_frame(self) -> (bytes: Bytes)
        ensures
            frozen(bytes) == prefixed(encode_response(self@)),
    {
        let payload = self.to_bytes();
        frame_message(payload.as_slice())
    }

    /// Decodes a payload, or reports that it holds no reply.
    pub fn try_from_bytes(buf: &[u8]) -> (r: Result<Response, KvsError>)
        ensures
            match decode_response(buf@) {
                Some(v) => r matches Ok(res) && res@ == v,
                None => r matches Err(KvsError::Corruption),
            },
    {
        if buf.len() == 0 {
            return Err(KvsError::Corruption);
        }
        let tag = buf[0];
        let text = match read_str(buf, 1) {
            Some((text, _)) => text,
            None => {
                return Err(KvsError::Corruption);
            },
        };
        if tag == TAG_SUCCESS {
            if text.as_str().is_empty() {
                Ok(Response::Success(None))
            } else {
                Ok(Response::Success(Some(text)))
            }
        } else if tag == TAG_ERROR {
            Ok(Response::Error(text))
        } else {
            Err(KvsError::Corruption)
        }
    }

    /// Decodes a payload that is known to hold a reply.
    pub fn from_bytes(buf: &[u8]) -> (res: Response)
        requires
            decode_response(buf@) is Some,
        ensures
            Some(res@) == decode_response(buf@),
    {
        match Response::try_from_bytes(buf) {
            Ok(res) => res,
            Err(_) => vstd::pervasive::unreached(),
        }
    }
}

} // verus!
