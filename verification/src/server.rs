//! The server side of the wire protocol: the buffer that incoming bytes are
//! gathered in until a whole message is there, and the handling of one
//! request.

use crate::buffer::{buf_advance, buf_append, buf_bytes, buf_new, buffered, frozen};
use crate::codec::{block, block_end, find_block, has_block, prefixed, Extent};
use crate::command::{decode_command, Command};
use crate::engine::KvsEngine;
use crate::error::KvsError;
use crate::response::{decode_response, encode_response, Response, ResponseView};
use bytes::{Bytes, BytesMut};
use vstd::prelude::*;
use vstd::slice::{slice_subrange, slice_to_vec};

verus! {

/// What the receipt of bytes from the peer means for the connection.
#[derive(Debug, Clone, Copy, PartialEq, Eq)]
pub enum Received {
    /// Bytes came in; look for a message again.
    More,
    /// The peer closed the connection and nothing was left unread.
    Closed,
    /// The peer closed the connection in the middle of a message.
    Reset,
}

/// The bytes of one connection that were received and not yet consumed.
pub struct Handler {
    buf: BytesMut,
}

impl View for Handler {
    type V = Seq<u8>;

    closed spec fn view(&self) -> Seq<u8> {
        buffered(self.buf)
    }
}

impl Handler {
    /// A handler that has received nothing.
    pub fn new() -> (h: Handler)
        ensures
            h@ == Seq::<u8>::empty(),
    {
        Handler { buf: buf_new() }
    }

    /// Takes in what a read from the peer returned. A read of no bytes means
    /// that the peer closed the connection: cleanly where nothing is left in
    /// the buffer, in the middle of a message otherwise.
    pub fn received(&mut self, data: &[u8]) -> (r: Received)
        ensures
            final(self)@ == old(self)@ + data@,
            data@.len() > 0 ==> r == Received::More,
            data@.len() == 0 && old(self)@.len() == 0 ==> r == Received::Closed,
            data@.len() == 0 && old(self)@.len() > 0 ==> r == Received::Reset,
    {
        if data.len() == 0 {
            assert(self@ + data@ =~= self@);
            if buf_bytes(&self.buf).len() > 0 {
                Received::Reset
            } else {
                Received::Closed
            }
        } else {
            buf_append(&mut self.buf, data);
            Received::More
        }
    }

    /// Takes the payload of the first message out of the buffer, if the
    /// whole message is there. A message whose length prefix declares more
    /// bytes than were received is not there yet: the buffer is left as it
    /// is.
    pub fn take_payload(&mut self) -> (r: Option<Vec<u8>>)
        ensures
            has_block(old(self)@, 0) ==> {
                &&& r matches Some(payload)
                &&& payload@ == block(old(self)@, 0)
                &&& final(self)@ == old(self)@.skip(block_end(old(self)@, 0))
            },
            !has_block(old(self)@, 0) ==> r is None && final(self)@ == old(self)@,
    {
        let data = buf_bytes(&self.buf);
        match find_block(data, 0) {
            Extent::Whole(end) => {
                let payload = slice_to_vec(slice_subrange(data, 8, end));
                buf_advance(&mut self.buf, end);
                Some(payload)
            },
            _ => None,
        }
    }

    /// Takes the first request out of the buffer, if the whole message is
    /// there. A whole message that holds no request is taken out too, and
    /// reported as corruption.
    pub fn parse_frame(&mut self) -> (r: Result<Option<Command>, KvsError>)
        ensures
            !has_block(old(self)@, 0) ==> (r matches Ok(None)) && final(self)@ == old(self)@,
            has_block(old(self)@, 0) ==> {
                &&& final(self)@ == old(self)@.skip(block_end(old(self)@, 0))
                &&& match decode_command(block(old(self)@, 0)) {
                    Some(c) => r matches Ok(Some(cmd)) && cmd@ == c,
                    None => r matches Err(KvsError::Corruption),
                }
            },
    {
        match self.take_payload() {
            None => Ok(None),
            Some(payload) => match Command::try_from_bytes(payload.as_slice()) {
                Ok(cmd) => Ok(Some(cmd)),
                Err(e) => Err(e),
            },
        }
    }

    /// Takes the first reply out of the buffer, if the whole message is
    /// there. A whole message that holds no reply is taken out too, and
    /// reported as corruption.
    pub fn parse_reply(&mut self) -> (r: Result<Option<Response>, KvsError>)
        ensures
            !has_block(old(self)@, 0) ==> (r matches Ok(None)) && final(self)@ == old(self)@,
            has_block(old(self)@, 0) ==> {
                &&& final(self)@ == old(self)@.skip(block_end(old(self)@, 0))
                &&& match decode_response(block(old(self)@, 0)) {
                    Some(v) => r matches Ok(Some(res)) && res@ == v,
                    None => r matches Err(KvsError::Corruption),
                }
            },
    {
        match self.take_payload() {
            None => Ok(None),
            Some(payload) => match Response::try_from_bytes(payload.as_slice()) {
                Ok(res) => Ok(Some(res)),
                Err(e) => Err(e),
            },
        }
    }

    /// The message that carries `res` to the peer.
    pub fn write_frame(res: Response) -> (bytes: Bytes)
        ensures
            frozen(bytes) == prefixed(encode_response(res@)),
    {
        res.into_frame()
    }
}

/// The reply to a request that stores or removes.
pub open spec fn done_reply(r: Result<(), KvsError>) -> ResponseView {
    match r {
        Ok(_) => ResponseView::Success(None),
        Err(e) => ResponseView::Error(e.message_spec()),
    }
}

/// The reply to a lookup.
pub open spec fn found_reply(r: Result<Option<String>, KvsError>) -> ResponseView {
    match r {
        Ok(Some(value)) => ResponseView::Success(Some(value@)),
        Ok(None) => ResponseView::Success(None),
        Err(e) => ResponseView::Error(e.message_spec()),
    }
}

/// Whether the engine went from `before` to `after` by the operation that
/// the request names, on the key of the request and for `Put` its value, and
/// `res` is the reply to what the operation returned.
pub open spec fn dispatched<T: KvsEngine>(
    before: &T,
    cmd: Command,
    after: &T,
    res: ResponseView,
) -> bool {
    match cmd {
        Command::Put(key, value) => exists|r: Result<(), KvsError>|
            #[trigger] before.set_outcome(key@, value@, after, r) && res == done_reply(r),
        Command::Get(key) => exists|r: Result<Option<String>, KvsError>|
            #[trigger] before.get_outcome(key@, after, r) && res == found_reply(r),
        Command::Remove(key) => exists|r: Result<(), KvsError>|
            #[trigger] before.remove_outcome(key@, after, r) && res == done_reply(r),
    }
}

/// How a connection goes on.
#[derive(Debug, Clone, Copy, PartialEq, Eq)]
pub enum Next {
    /// Look for the next request.
    Continue,
    /// End the connection.
    Close,
}

/// The server: it answers each request with what the engine made of it.
pub struct KvsServer {}

impl KvsServer {
    /// The reply to a request that stores or removes, from what the engine
    /// returned: success without a value, or the message of the error.
    pub fn reply_done(r: Result<(), KvsError>) -> (res: Response)
        ensures
            res@ == done_reply(r),
    {
        match r {
            Ok(_) => Response::Success(None),
            Err(e) => Response::Error(e.message()),
        }
    }

    /// The reply to a lookup, from what the engine returned: success with
    /// the value found or without one, or the message of the error.
    pub fn reply_found(r: Result<Option<String>, KvsError>) -> (res: Response)
        ensures
            res@ == found_reply(r),
    {
        match r {
            Ok(value) => Response::Success(value),
            Err(e) => Response::Error(e.message()),
        }
    }

    /// Hands one request to the engine and turns what the engine returns
    /// into the reply: the key of the request, and for `Put` its value, go
    /// to the operation of the engine that the request names; the engine is
    /// left as that operation leaves it; and the reply is `reply_done` or
    /// `reply_found` of what the operation returned. An error of the engine
    /// becomes an error reply; it does not end the session.
    pub fn dispatch<T: KvsEngine>(store: &mut T, cmd: Command) -> (res: Response)
        ensures
            dispatched(old(store), cmd, final(store), res@),
    {
        match cmd {
            Command::Put(key, value) => KvsServer::reply_done(store.set(key, value)),
            Command::Get(key) => KvsServer::reply_found(store.get(key)),
            Command::Remove(key) => KvsServer::reply_done(store.remove(key)),
        }
    }

    /// What to send after a look for the next request in what was received.
    /// A request goes to the engine, and its reply is sent. A message that
    /// held no request is answered with the error, and the session goes on.
    /// Where no whole message is there yet, nothing is sent and the engine
    /// is left alone: more has to be read first.
    pub fn respond<T: KvsEngine>(
        store: &mut T,
        parsed: Result<Option<Command>, KvsError>,
    ) -> (reply: Option<Response>)
        ensures
            match parsed {
                Ok(Some(cmd)) => reply matches Some(res) && dispatched(
                    old(store),
                    cmd,
                    final(store),
                    res@,
                ),
                Ok(None) => reply is None && *final(store) == *old(store),
                Err(e) => reply matches Some(res) && res@ == ResponseView::Error(
                    e.message_spec(),
                ) && *final(store) == *old(store),
            },
    {
        match parsed {
            Ok(Some(cmd)) => Some(KvsServer::dispatch(store, cmd)),
            Ok(None) => None,
            Err(e) => Some(KvsServer::reject(e)),
        }
    }

    /// How the connection goes on after a reply was sent, or could not be
    /// sent: a failed send ends the connection, and that one alone.
    pub fn after_send(sent: bool) -> (next: Next)
        ensures
            next == if sent {
                Next::Continue
            } else {
                Next::Close
            },
    {
        if sent {
            Next::Continue
        } else {
            Next::Close
        }
    }

    /// The reply to a message that held no request.
    pub fn reject(e: KvsError) -> (res: Response)
        ensures
            res@ == ResponseView::Error(e.message_spec()),
    {
        Response::Error(e.message())
    }
}

} // verus!
