//! Protocol frames and their wire encoding.
use vstd::prelude::*;

verus! {

/// Byte values of the type markers and line terminator.
pub const SIMPLE_MARK: u8 = 43;
pub const ERROR_MARK: u8 = 45;
pub const INTEGER_MARK: u8 = 58;
pub const BULK_MARK: u8 = 36;
pub const NULL_MARK: u8 = 95;
pub const ARRAY_MARK: u8 = 42;
pub const CR: u8 = 13;
pub const LF: u8 = 10;
pub const MINUS: u8 = 45;

/// The mathematical model of a frame.
pub enum SpecFrame {
    Simple(Seq<u8>),
    Error(Seq<u8>),
    Integer(int),
    Bulk(Seq<u8>),
    Null,
    Array(Seq<SpecFrame>),
}

/// One unit of the wire protocol.
#[derive(Debug)]
pub enum Frame {
    Simple(Vec<u8>),
    Error(Vec<u8>),
    Integer(i64),
    Bulk(Vec<u8>),
    Null,
    Array(Vec<Frame>),
}

impl Frame {
    pub open spec fn model(self) -> SpecFrame
        decreases self,
    {
        match self {
            Frame::Simple(t) => SpecFrame::Simple(t@),
            Frame::Error(t) => SpecFrame::Error(t@),
            Frame::Integer(n) => SpecFrame::Integer(n as int),
            Frame::Bulk(b) => SpecFrame::Bulk(b@),
            Frame::Null => SpecFrame::Null,
            Frame::Array(v) => SpecFrame::Array(
                Seq::new(
                    v.len() as nat,
                    |i: int|
                        if 0 <= i < v.len() {
                            v[i].model()
                        } else {
                            SpecFrame::Null
                        },
                ),
            ),
        }
    }
}

impl View for Frame {
    type V = SpecFrame;

    open spec fn view(&self) -> SpecFrame {
        self.model()
    }
}

pub open spec fn crlf() -> Seq<u8> {
    seq![CR, LF]
}

/// The decimal digits of `n`, most significant first, without leading zeros.
pub open spec fn decimal(n: nat) -> Seq<u8>
    decreases n,
{
    if n < 10 {
        seq![(48 + n) as u8]
    } else {
        decimal(n / 10).push((48 + n % 10) as u8)
    }
}

/// The decimal text of a signed integer: a minus sign before negative values.
pub open spec fn signed_decimal(n: int) -> Seq<u8> {
    if n < 0 {
        seq![MINUS] + decimal((-n) as nat)
    } else {
        decimal(n as nat)
    }
}

/// The wire encoding of a frame.
pub open spec fn encode(f: SpecFrame) -> Seq<u8>
    decreases f,
{
    match f {
        SpecFrame::Simple(t) => seq![SIMPLE_MARK] + t + crlf(),
        SpecFrame::Error(t) => seq![ERROR_MARK] + t + crlf(),
        SpecFrame::Integer(n) => seq![INTEGER_MARK] + signed_decimal(n) + crlf(),
        SpecFrame::Bulk(b) => seq![BULK_MARK] + decimal(b.len()) + crlf() + b + crlf(),
        SpecFrame::Null => seq![NULL_MARK] + crlf(),
        SpecFrame::Array(items) => seq![ARRAY_MARK] + decimal(items.len()) + crlf()
            + encode_items(items),
    }
}

/// The encodings of a sequence of frames, one after another.
pub open spec fn encode_items(items: Seq<SpecFrame>) -> Seq<u8>
    decreases items,
{
    if items.len() == 0 {
        Seq::empty()
    } else {
        encode_items(items.drop_last()) + encode(items.last())
    }
}

fn push_all(out: &mut Vec<u8>, b: &Vec<u8>)
    ensures
        final(out)@ == old(out)@ + b@,
{
    let mut i: usize = 0;
    while i < b.len()
        invariant
            i <= b.len(),
            out@ == old(out)@ + b@.subrange(0, i as int),
        decreases b.len() - i,
    {
        out.push(b[i]);
        i += 1;
        assert(b@.subrange(0, i as int) == b@.subrange(0, i - 1 as int).push(b@[i - 1]));
    }
    assert(b@.subrange(0, b.len() as int) == b@);
}

fn push_crlf(out: &mut Vec<u8>)
    ensures
        final(out)@ == old(out)@ + crlf(),
{
    out.push(CR);
    out.push(LF);
}

/// Appends the decimal digits of `n`.
pub fn write_decimal(n: u64, out: &mut Vec<u8>)
    ensures
        final(out)@ == old(out)@ + decimal(n as nat),
    decreases n,
{
    if n < 10 {
        out.push(48 + n as u8);
    } else {
        write_decimal(n / 10, out);
        out.push(48 + (n % 10) as u8);
    }
}

/// Appends the wire encoding of `f` to `out`.
pub fn write_frame(f: &Frame, out: &mut Vec<u8>)
    ensures
        final(out)@ == old(out)@ + encode(f@),
    decreases f@,
{
    let ghost o = out@;
    match f {
        Frame::Simple(t) => {
            out.push(SIMPLE_MARK);
            push_all(out, t);
            push_crlf(out);
            assert(out@ =~= o + encode(f@));
        },
        Frame::Error(t) => {
            out.push(ERROR_MARK);
            push_all(out, t);
            push_crlf(out);
            assert(out@ =~= o + encode(f@));
        },
        Frame::Integer(n) => {
            out.push(INTEGER_MARK);
            if *n < 0 {
                out.push(MINUS);
                let m: u64 = if *n == i64::MIN {
                    9223372036854775808u64
                } else {
                    (-*n) as u64
                };
                write_decimal(m, out);
            } else {
                write_decimal(*n as u64, out);
            }
            push_crlf(out);
            assert(out@ =~= o + encode(f@));
        },
        Frame::Bulk(b) => {
            out.push(BULK_MARK);
            write_decimal(b.len() as u64, out);
            push_crlf(out);
            push_all(out, b);
            push_crlf(out);
            assert(out@ =~= o + encode(f@));
        },
        Frame::Null => {
            out.push(NULL_MARK);
            push_crlf(out);
            assert(out@ =~= o + encode(f@));
        },
        Frame::Array(v) => {
            out.push(ARRAY_MARK);
            write_decimal(v.len() as u64, out);
            push_crlf(out);
            let ghost start = out@;
            let ghost items = f@->Array_0;
            let mut i: usize = 0;
            while i < v.len()
                invariant
                    i <= v.len(),
                    items.len() == v.len(),
                    forall|j: int| 0 <= j < v.len() ==> items[j] == #[trigger] v[j]@,
                    decreases_to!(f@ => items),
                    out@ == start + encode_items(items.take(i as int)),
                decreases v.len() - i,
            {
                proof {
                    assert(decreases_to!(items => items[i as int]));
                }
                write_frame(&v[i], out);
                proof {
                    let next = items.take((i + 1) as int);
                    assert(next.drop_last() == items.take(i as int));
                    assert(next.last() == items[i as int]);
                }
                i += 1;
            }
            assert(items.take(v.len() as int) == items);
            assert(out@ =~= o + encode(f@));
        },
    }
}

} // verus!
