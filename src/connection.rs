//! What a connection does with the bytes and frames it receives.
use vstd::prelude::*;
use crate::codec::{parse_at, try_read_frame, Parsed};
use crate::command::{command_of, Command, SpecCommand};
use crate::frame::{encode, Frame, SpecFrame};
use crate::frame_lemmas::{lemma_parse_partial, wf_frame};
use crate::store::Store;

verus! {

/// The text `OK`.
pub open spec fn ok_text() -> Seq<u8> {
    seq![79u8, 75u8]
}

/// The text `ERR unknown command`.
pub open spec fn unknown_command_text() -> Seq<u8> {
    seq![69u8, 82u8, 82u8, 32u8, 117u8, 110u8, 107u8, 110u8, 111u8, 119u8, 110u8, 32u8, 99u8,
        111u8, 109u8, 109u8, 97u8, 110u8, 100u8]
}

/// The text `ERR invalid frame`.
pub open spec fn invalid_frame_text() -> Seq<u8> {
    seq![69u8, 82u8, 82u8, 32u8, 105u8, 110u8, 118u8, 97u8, 108u8, 105u8, 100u8, 32u8, 102u8,
        114u8, 97u8, 109u8, 101u8]
}

/// The response to command `c` on a store holding `m`.
pub open spec fn reply(m: Map<Seq<u8>, Seq<u8>>, c: SpecCommand) -> SpecFrame {
    match c {
        SpecCommand::Get(k) => if m.contains_key(k) {
            SpecFrame::Bulk(m[k])
        } else {
            SpecFrame::Null
        },
        SpecCommand::Put(_, _) => SpecFrame::Simple(ok_text()),
    }
}

/// The store's contents after command `c` on a store holding `m`.
pub open spec fn after(m: Map<Seq<u8>, Seq<u8>>, c: SpecCommand) -> Map<Seq<u8>, Seq<u8>> {
    match c {
        SpecCommand::Get(_) => m,
        SpecCommand::Put(k, v) => m.insert(k, v),
    }
}

/// Applies a command to the store and gives the response frame.
pub fn execute(store: &mut Store, cmd: Command) -> (r: Frame)
    ensures
        final(store)@ == after(old(store)@, cmd@),
        r@ == reply(old(store)@, cmd@),
{
    match cmd {
        Command::Get { key } => match store.get(key.as_slice()) {
            Some(v) => Frame::Bulk(v),
            None => Frame::Null,
        },
        Command::Put { key, value } => {
            store.set(key, value);
            Frame::Simple(vec![79u8, 75u8])
        },
    }
}

/// Answers one request frame. A frame that is no known command gets an
/// `Error` response and leaves the store as it was.
pub fn respond(store: &mut Store, frame: Frame) -> (r: Frame)
    ensures
        match command_of(frame@) {
            Some(c) => final(store)@ == after(old(store)@, c) && r@ == reply(old(store)@, c),
            None => final(store)@ == old(store)@ && r@ == SpecFrame::Error(unknown_command_text()),
        },
{
    match Command::from_frame(frame) {
        Ok(cmd) => execute(store, cmd),
        Err(_) => Frame::Error(
            vec![69u8, 82u8, 82u8, 32u8, 117u8, 110u8, 107u8, 110u8, 111u8, 119u8, 110u8, 32u8,
            99u8, 111u8, 109u8, 109u8, 97u8, 110u8, 100u8],
        ),
    }
}

/// What a connection does next.
pub enum Next {
    /// A complete request frame, taken off the buffer.
    Request(Frame),
    /// The buffer holds no complete frame yet: read more bytes.
    ReadMore,
    /// The stream has ended: close without a response.
    Close,
    /// The bytes are no frame: send this response, then close.
    Fail(Frame),
}

/// Decides the next step of a connection from its read buffer and whether
/// the peer has closed the stream.
pub fn next_event(buffer: &mut Vec<u8>, at_eof: bool) -> (r: Next)
    ensures
        match parse_at(old(buffer)@, 0) {
            Parsed::Complete(f, n) => r is Request && r->Request_0@ == f && final(buffer)@
                == old(buffer)@.subrange(n, old(buffer)@.len() as int),
            Parsed::Incomplete => final(buffer)@ == old(buffer)@ && if at_eof {
                r is Close
            } else {
                r is ReadMore
            },
            Parsed::Invalid => final(buffer)@ == old(buffer)@ && r is Fail && r->Fail_0@
                == SpecFrame::Error(invalid_frame_text()),
        },
{
    match try_read_frame(buffer) {
        Ok(Some(f)) => Next::Request(f),
        Ok(None) => if at_eof {
            Next::Close
        } else {
            Next::ReadMore
        },
        Err(_) => Next::Fail(
            Frame::Error(
                vec![69u8, 82u8, 82u8, 32u8, 105u8, 110u8, 118u8, 97u8, 108u8, 105u8, 100u8, 32u8,
                102u8, 114u8, 97u8, 109u8, 101u8],
            ),
        ),
    }
}

/// A value stored by `SET k v` is what a later `GET k` returns, on any connection.
pub proof fn lemma_set_then_get(m: Map<Seq<u8>, Seq<u8>>, k: Seq<u8>, v: Seq<u8>)
    ensures
        reply(after(m, SpecCommand::Put(k, v)), SpecCommand::Get(k)) == SpecFrame::Bulk(v),
{
}

/// `GET` on a key that an empty store never received returns `Null`.
pub proof fn lemma_get_missing(m: Map<Seq<u8>, Seq<u8>>, k: Seq<u8>)
    requires
        !m.contains_key(k),
    ensures
        reply(m, SpecCommand::Get(k)) == SpecFrame::Null,
        reply(Map::empty(), SpecCommand::Get(k)) == SpecFrame::Null,
{
}

/// Repeating `SET k v` leaves the store and the response as one `SET k v` does.
pub proof fn lemma_set_idempotent(m: Map<Seq<u8>, Seq<u8>>, k: Seq<u8>, v: Seq<u8>)
    ensures
        after(after(m, SpecCommand::Put(k, v)), SpecCommand::Put(k, v)) == after(
            m,
            SpecCommand::Put(k, v),
        ),
        reply(after(m, SpecCommand::Put(k, v)), SpecCommand::Put(k, v)) == reply(
            m,
            SpecCommand::Put(k, v),
        ),
{
    assert(m.insert(k, v).insert(k, v) =~= m.insert(k, v));
}

/// Two `SET`s of one key, applied one after the other in either order, leave
/// a later `GET` returning one of the two values whole.
pub proof fn lemma_racing_sets(m: Map<Seq<u8>, Seq<u8>>, k: Seq<u8>, v1: Seq<u8>, v2: Seq<u8>)
    ensures
        reply(
            after(after(m, SpecCommand::Put(k, v1)), SpecCommand::Put(k, v2)),
            SpecCommand::Get(k),
        ) == SpecFrame::Bulk(v2),
        reply(
            after(after(m, SpecCommand::Put(k, v2)), SpecCommand::Put(k, v1)),
            SpecCommand::Get(k),
        ) == SpecFrame::Bulk(v1),
{
}

/// A truncated frame followed by the end of the stream: what arrived decodes
/// as too few bytes, never as a frame or an error, so `next_event` closes the
/// connection without a response, and the store is not touched.
pub proof fn lemma_truncated_frame(f: SpecFrame, first: Seq<u8>)
    requires
        wf_frame(f),
        first.len() < encode(f).len(),
        first == encode(f).subrange(0, first.len() as int),
    ensures
        parse_at(first, 0) == Parsed::<SpecFrame>::Incomplete,
{
    assert(first.subrange(0, first.len() as int) =~= first);
    lemma_parse_partial(first, 0, f);
}

} // verus!
