//! The GET/SET commands carried in request frames.
use vstd::prelude::*;
use crate::codec::{copy_range, ProtocolError};
use crate::frame::{Frame, SpecFrame};

verus! {

/// The mathematical model of a command.
pub enum SpecCommand {
    Get(Seq<u8>),
    Put(Seq<u8>, Seq<u8>),
}

/// A parsed request. It owns copies of its key and value.
#[derive(Debug)]
pub enum Command {
    Get { key: Vec<u8> },
    Put { key: Vec<u8>, value: Vec<u8> },
}

impl View for Command {
    type V = SpecCommand;

    open spec fn view(&self) -> SpecCommand {
        match self {
            Command::Get { key } => SpecCommand::Get(key@),
            Command::Put { key, value } => SpecCommand::Put(key@, value@),
        }
    }
}

/// The byte `b` with ASCII lower-case letters raised to upper case.
pub open spec fn ascii_upper(b: u8) -> u8 {
    if 97 <= b <= 122 {
        (b - 32) as u8
    } else {
        b
    }
}

/// Whether `t` spells the upper-case `name`, ignoring ASCII case.
pub open spec fn names(t: Seq<u8>, name: Seq<u8>) -> bool {
    t.len() == name.len() && forall|i: int| 0 <= i < t.len() ==> ascii_upper(#[trigger] t[i]) == name[i]
}

pub open spec fn get_name() -> Seq<u8> {
    seq![71u8, 69u8, 84u8]
}

pub open spec fn set_name() -> Seq<u8> {
    seq![83u8, 69u8, 84u8]
}

/// The text carried by a `Simple` or `Bulk` frame.
pub open spec fn text_of(f: SpecFrame) -> Option<Seq<u8>> {
    match f {
        SpecFrame::Simple(t) => Some(t),
        SpecFrame::Bulk(b) => Some(b),
        _ => None,
    }
}

/// The command that a frame stands for, if any: an array whose first element
/// names `GET` with one text argument, or `SET` with two.
pub open spec fn command_of(f: SpecFrame) -> Option<SpecCommand> {
    match f {
        SpecFrame::Array(items) => {
            if items.len() >= 1 && text_of(items[0]) is Some {
                let name = text_of(items[0])->Some_0;
                if names(name, get_name()) && items.len() == 2 && text_of(items[1]) is Some {
                    Some(SpecCommand::Get(text_of(items[1])->Some_0))
                } else if names(name, set_name()) && items.len() == 3 && text_of(items[1]) is Some
                    && text_of(items[2]) is Some {
                    Some(SpecCommand::Put(text_of(items[1])->Some_0, text_of(items[2])->Some_0))
                } else {
                    None
                }
            } else {
                None
            }
        },
        _ => None,
    }
}

fn upper(b: u8) -> (r: u8)
    ensures
        r == ascii_upper(b),
{
    if 97 <= b && b <= 122 {
        b - 32
    } else {
        b
    }
}

/// Whether `t` spells the three upper-case letters `a`, `b`, `c`, ignoring ASCII case.
fn names3(t: &Vec<u8>, a: u8, b: u8, c: u8) -> (r: bool)
    ensures
        r == names(t@, seq![a, b, c]),
{
    if t.len() != 3 {
        return false;
    }
    let r = upper(t[0]) == a && upper(t[1]) == b && upper(t[2]) == c;
    assert(r ==> forall|i: int| 0 <= i < 3 ==> ascii_upper(#[trigger] t@[i]) == seq![a, b, c][i]);
    assert(!r ==> !names(t@, seq![a, b, c])) by {
        if !r && names(t@, seq![a, b, c]) {
            assert(ascii_upper(t@[0]) == seq![a, b, c][0]);
            assert(ascii_upper(t@[1]) == seq![a, b, c][1]);
            assert(ascii_upper(t@[2]) == seq![a, b, c][2]);
        }
    }
    r
}

fn text(f: &Frame) -> (r: Option<&Vec<u8>>)
    ensures
        match text_of(f@) {
            Some(t) => r is Some && r->Some_0@ == t,
            None => r is None,
        },
{
    match f {
        Frame::Simple(t) => Some(t),
        Frame::Bulk(b) => Some(b),
        _ => None,
    }
}

fn copy_bytes(v: &Vec<u8>) -> (r: Vec<u8>)
    ensures
        r@ == v@,
{
    let r = copy_range(v.as_slice(), 0, v.len());
    assert(v@.subrange(0, v@.len() as int) == v@);
    r
}

impl Command {
    /// Builds a command from a request frame; anything that is not a `GET`
    /// with one argument or a `SET` with two is `UnknownOrMalformed`.
    pub fn from_frame(frame: Frame) -> (r: Result<Command, ProtocolError>)
        ensures
            match command_of(frame@) {
                Some(c) => r is Ok && r->Ok_0@ == c,
                None => r == Err::<Command, ProtocolError>(ProtocolError::UnknownOrMalformed),
            },
    {
        let items = match &frame {
            Frame::Array(items) => items,
            _ => {
                return Err(ProtocolError::UnknownOrMalformed);
            },
        };
        let ghost seq_items = frame@->Array_0;
        assert(forall|i: int| 0 <= i < items.len() ==> seq_items[i] == (#[trigger] items[i])@);
        if items.len() < 1 {
            return Err(ProtocolError::UnknownOrMalformed);
        }
        let name = match text(&items[0]) {
            Some(t) => t,
            None => {
                return Err(ProtocolError::UnknownOrMalformed);
            },
        };
        if names3(name, 71, 69, 84) && items.len() == 2 {
            match text(&items[1]) {
                Some(k) => Ok(Command::Get { key: copy_bytes(k) }),
                None => Err(ProtocolError::UnknownOrMalformed),
            }
        } else if names3(name, 83, 69, 84) && items.len() == 3 {
            match (text(&items[1]), text(&items[2])) {
                (Some(k), Some(v)) => Ok(Command::Put { key: copy_bytes(k), value: copy_bytes(v) }),
                _ => Err(ProtocolError::UnknownOrMalformed),
            }
        } else {
            Err(ProtocolError::UnknownOrMalformed)
        }
    }
}

} // verus!
