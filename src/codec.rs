//! Incremental decoding of frames from a byte buffer.
use vstd::prelude::*;
use crate::frame::{
    Frame, SpecFrame, ARRAY_MARK, BULK_MARK, CR, ERROR_MARK, INTEGER_MARK, LF, MINUS, NULL_MARK,
    SIMPLE_MARK,
};

verus! {

/// Largest value accepted for a length, a count or an integer magnitude.
pub const NUMBER_LIMIT: u64 = 9223372036854775807;

/// Why a frame or a command could not be decoded.
#[derive(Debug, Clone, Copy, PartialEq, Eq, Structural)]
pub enum ProtocolError {
    /// The bytes do not form a frame.
    Invalid,
    /// The frame does not form a known command.
    UnknownOrMalformed,
}

pub open spec fn is_digit(b: u8) -> bool {
    48 <= b <= 57
}

pub open spec fn all_digits(t: Seq<u8>) -> bool {
    forall|i: int| 0 <= i < t.len() ==> is_digit(#[trigger] t[i])
}

/// The number that a run of decimal digits stands for.
pub open spec fn digits_value(t: Seq<u8>) -> nat
    decreases t.len(),
{
    if t.len() == 0 {
        0
    } else {
        digits_value(t.drop_last()) * 10 + (t.last() - 48) as nat
    }
}

/// The value of `t` when it is a nonempty run of digits whose value is at most `bound`.
pub open spec fn decimal_value(t: Seq<u8>, bound: nat) -> Option<nat> {
    if t.len() > 0 && all_digits(t) && digits_value(t) <= bound {
        Some(digits_value(t))
    } else {
        None
    }
}

/// The value of `t` read as an optional minus sign followed by digits, within `i64`.
pub open spec fn signed_value(t: Seq<u8>) -> Option<int> {
    if t.len() > 0 && t[0] == MINUS {
        match decimal_value(t.drop_first(), NUMBER_LIMIT as nat + 1) {
            Some(m) => Some(-m),
            None => None,
        }
    } else {
        match decimal_value(t, NUMBER_LIMIT as nat) {
            Some(m) => Some(m as int),
            None => None,
        }
    }
}

/// The first index at or after `p` that holds a CR or an LF byte, or the length of `s`.
pub open spec fn line_stop(s: Seq<u8>, p: int) -> int
    decreases s.len() - p,
{
    if p >= s.len() {
        s.len() as int
    } else if s[p] == CR || s[p] == LF {
        p
    } else {
        line_stop(s, p + 1)
    }
}

/// Outcome of reading one CRLF-terminated line.
pub enum Line {
    /// The line's text ends at this index; a CRLF follows it.
    Found(int),
    Incomplete,
    Invalid,
}

pub open spec fn read_line(s: Seq<u8>, p: int) -> Line {
    let i = line_stop(s, p);
    if i >= s.len() {
        Line::Incomplete
    } else if s[i] == LF {
        Line::Invalid
    } else if i + 1 >= s.len() {
        Line::Incomplete
    } else if s[i + 1] != LF {
        Line::Invalid
    } else {
        Line::Found(i)
    }
}

/// Outcome of decoding from a position of a buffer.
pub enum Parsed<T> {
    /// A complete value, and the index just past its last byte.
    Complete(T, int),
    /// The bytes so far are too few to decide.
    Incomplete,
    /// The bytes cannot begin a frame.
    Invalid,
}

pub open spec fn is_marker(m: u8) -> bool {
    m == SIMPLE_MARK || m == ERROR_MARK || m == INTEGER_MARK || m == BULK_MARK || m == NULL_MARK
        || m == ARRAY_MARK
}

/// Puts `xs` in front of a decoded sequence of frames.
pub open spec fn prepend(xs: Seq<SpecFrame>, r: Parsed<Seq<SpecFrame>>) -> Parsed<Seq<SpecFrame>> {
    match r {
        Parsed::Complete(fs, e) => Parsed::Complete(xs + fs, e),
        Parsed::Incomplete => Parsed::Incomplete,
        Parsed::Invalid => Parsed::Invalid,
    }
}

/// An array frame of the decoded items.
pub open spec fn array_of(r: Parsed<Seq<SpecFrame>>) -> Parsed<SpecFrame> {
    match r {
        Parsed::Complete(items, e) => Parsed::Complete(SpecFrame::Array(items), e),
        Parsed::Incomplete => Parsed::Incomplete,
        Parsed::Invalid => Parsed::Invalid,
    }
}

/// The frame that the bytes of `s` from index `p` begin with.
pub open spec fn parse_at(s: Seq<u8>, p: int) -> Parsed<SpecFrame>
    decreases s.len() - p, 0int, 0int
        via parse_at_decreases
{
    if p < 0 || p >= s.len() {
        Parsed::Incomplete
    } else if !is_marker(s[p]) {
        Parsed::Invalid
    } else {
        match read_line(s, p + 1) {
            Line::Incomplete => Parsed::Incomplete,
            Line::Invalid => Parsed::Invalid,
            Line::Found(i) => {
                let m = s[p];
                let t = s.subrange(p + 1, i);
                if m == SIMPLE_MARK {
                    Parsed::Complete(SpecFrame::Simple(t), i + 2)
                } else if m == ERROR_MARK {
                    Parsed::Complete(SpecFrame::Error(t), i + 2)
                } else if m == INTEGER_MARK {
                    match signed_value(t) {
                        Some(n) => Parsed::Complete(SpecFrame::Integer(n), i + 2),
                        None => Parsed::Invalid,
                    }
                } else if m == NULL_MARK {
                    if t.len() == 0 {
                        Parsed::Complete(SpecFrame::Null, i + 2)
                    } else {
                        Parsed::Invalid
                    }
                } else if m == BULK_MARK {
                    match decimal_value(t, NUMBER_LIMIT as nat) {
                        None => Parsed::Invalid,
                        Some(n) => {
                            let e = i + 2 + n;
                            if e + 2 > s.len() {
                                Parsed::Incomplete
                            } else if s[e] == CR && s[e + 1] == LF {
                                Parsed::Complete(SpecFrame::Bulk(s.subrange(i + 2, e)), e + 2)
                            } else {
                                Parsed::Invalid
                            }
                        },
                    }
                } else {
                    match decimal_value(t, NUMBER_LIMIT as nat) {
                        None => Parsed::Invalid,
                        Some(n) => array_of(parse_items(s, i + 2, n)),
                    }
                }
            },
        }
    }
}

#[via_fn]
proof fn parse_at_decreases(s: Seq<u8>, p: int) {
    if 0 <= p < s.len() {
        lemma_line_stop_bounds(s, p + 1);
    }
}

pub proof fn lemma_line_stop_bounds(s: Seq<u8>, p: int)
    requires
        0 <= p <= s.len(),
    ensures
        p <= line_stop(s, p) <= s.len(),
        line_stop(s, p) < s.len() ==> (s[line_stop(s, p)] == CR || s[line_stop(s, p)] == LF),
    decreases s.len() - p,
{
    if p < s.len() && !(s[p] == CR || s[p] == LF) {
        lemma_line_stop_bounds(s, p + 1);
    }
}

/// The `k` frames that follow one another from index `p` of `s`.
pub open spec fn parse_items(s: Seq<u8>, p: int, k: nat) -> Parsed<Seq<SpecFrame>>
    decreases s.len() - p, 1int, k,
{
    if k == 0 {
        Parsed::Complete(Seq::empty(), p)
    } else {
        match parse_at(s, p) {
            Parsed::Complete(f, q) => {
                if p < q <= s.len() {
                    prepend(seq![f], parse_items(s, q, (k - 1) as nat))
                } else {
                    Parsed::Invalid
                }
            },
            Parsed::Incomplete => Parsed::Incomplete,
            Parsed::Invalid => Parsed::Invalid,
        }
    }
}

proof fn lemma_items_bounds(s: Seq<u8>, p: int, k: nat)
    requires
        0 <= p <= s.len(),
    ensures
        parse_items(s, p, k) is Complete ==> p <= parse_items(s, p, k)->Complete_1 <= s.len(),
    decreases s.len() - p, 1int, k,
{
    if k > 0 {
        if let Parsed::Complete(f, q) = parse_at(s, p) {
            if p < q <= s.len() {
                lemma_items_bounds(s, q, (k - 1) as nat);
            }
        }
    }
}

/// A decoded frame ends past its start and within the buffer.
pub proof fn lemma_parse_bounds(s: Seq<u8>, p: int)
    requires
        0 <= p,
    ensures
        parse_at(s, p) is Complete ==> p < parse_at(s, p)->Complete_1 <= s.len(),
{
    if p < s.len() && is_marker(s[p]) {
        lemma_line_stop_bounds(s, p + 1);
        if let Line::Found(i) = read_line(s, p + 1) {
            lemma_items_bounds(s, i + 2, digits_value(s.subrange(p + 1, i)));
        }
    }
}

/// Whether an exec decoding result agrees with the spec outcome `p`.
pub open spec fn agrees(r: Result<Option<(Frame, usize)>, ProtocolError>, p: Parsed<SpecFrame>) -> bool {
    match p {
        Parsed::Complete(f, e) => r is Ok && r->Ok_0 is Some && r->Ok_0->Some_0.0@ == f
            && r->Ok_0->Some_0.1 == e,
        Parsed::Incomplete => r == Ok::<Option<(Frame, usize)>, ProtocolError>(None),
        Parsed::Invalid => r == Err::<Option<(Frame, usize)>, ProtocolError>(ProtocolError::Invalid),
    }
}

proof fn lemma_digits_step(t: Seq<u8>, k: int)
    requires
        0 <= k < t.len(),
    ensures
        digits_value(t.subrange(0, k + 1)) == digits_value(t.subrange(0, k)) * 10 + (t[k] - 48) as nat,
{
    assert(t.subrange(0, k + 1).drop_last() == t.subrange(0, k));
}

proof fn lemma_digits_monotone(t: Seq<u8>, i: int, j: int)
    requires
        0 <= i <= j <= t.len(),
        all_digits(t),
    ensures
        digits_value(t.subrange(0, i)) <= digits_value(t.subrange(0, j)),
    decreases j - i,
{
    if i < j {
        lemma_digits_monotone(t, i, j - 1);
        lemma_digits_step(t, j - 1);
        assert(is_digit(t[j - 1]));
    }
}

pub(crate) fn copy_range(buf: &[u8], a: usize, b: usize) -> (r: Vec<u8>)
    requires
        a <= b <= buf.len(),
    ensures
        r@ == buf@.subrange(a as int, b as int),
{
    let mut r: Vec<u8> = Vec::new();
    let mut i: usize = a;
    while i < b
        invariant
            a <= i <= b <= buf.len(),
            r@ == buf@.subrange(a as int, i as int),
        decreases b - i,
    {
        r.push(buf[i]);
        i += 1;
        assert(r@ =~= buf@.subrange(a as int, i as int));
    }
    r
}

/// Finds the end of the line that starts at `p`.
fn read_line_at(buf: &[u8], p: usize) -> (r: Result<Option<usize>, ProtocolError>)
    requires
        p <= buf.len(),
    ensures
        match read_line(buf@, p as int) {
            Line::Found(i) => r == Ok::<Option<usize>, ProtocolError>(Some(i as usize)) && p <= i,
            Line::Incomplete => r == Ok::<Option<usize>, ProtocolError>(None),
            Line::Invalid => r == Err::<Option<usize>, ProtocolError>(ProtocolError::Invalid),
        },
{
    proof {
        lemma_line_stop_bounds(buf@, p as int);
    }
    let mut i: usize = p;
    while i < buf.len() && buf[i] != CR && buf[i] != LF
        invariant
            p <= i <= buf.len(),
            line_stop(buf@, p as int) == line_stop(buf@, i as int),
        decreases buf.len() - i,
    {
        i += 1;
    }
    if i >= buf.len() {
        Ok(None)
    } else if buf[i] == LF {
        Err(ProtocolError::Invalid)
    } else if i + 1 >= buf.len() {
        Ok(None)
    } else if buf[i + 1] != LF {
        Err(ProtocolError::Invalid)
    } else {
        Ok(Some(i))
    }
}

/// Reads the digits in `buf[start..end]` as a number no greater than `bound`.
fn parse_decimal(buf: &[u8], start: usize, end: usize, bound: u64) -> (r: Option<u64>)
    requires
        start <= end <= buf.len(),
    ensures
        match decimal_value(buf@.subrange(start as int, end as int), bound as nat) {
            Some(n) => r == Some(n as u64),
            None => r is None,
        },
{
    let ghost t = buf@.subrange(start as int, end as int);
    if start == end {
        return None;
    }
    let mut acc: u64 = 0;
    let mut i: usize = start;
    while i < end
        invariant
            start <= i <= end <= buf.len(),
            t == buf@.subrange(start as int, end as int),
            acc as nat == digits_value(t.subrange(0, i - start)),
            all_digits(t.subrange(0, i - start)),
            acc <= bound,
        decreases end - i,
    {
        let b = buf[i];
        let ghost k = i - start;
        if b < 48 || b > 57 {
            assert(!is_digit(t[k]));
            return None;
        }
        let d: u64 = (b - 48) as u64;
        proof {
            lemma_digits_step(t, k);
        }
        if d > bound || acc > (bound - d) / 10 {
            proof {
                assert(acc * 10 + d > bound) by (nonlinear_arith)
                    requires
                        d > bound || acc > (bound - d) / 10,
                ;
                if all_digits(t) {
                    lemma_digits_monotone(t, k + 1, t.len() as int);
                    assert(t.subrange(0, t.len() as int) == t);
                }
            }
            return None;
        }
        assert(acc * 10 + d <= bound) by (nonlinear_arith)
            requires
                d <= bound,
                acc <= (bound - d) / 10,
        ;
        acc = acc * 10 + d;
        i += 1;
        assert forall|j: int| 0 <= j < i - start implies is_digit(#[trigger] t.subrange(0, i - start)[j]) by {
            if j < k {
                assert(t.subrange(0, i - start)[j] == t.subrange(0, k)[j]);
            }
        }
    }
    assert(t.subrange(0, end - start) == t);
    Some(acc)
}

/// Reads `buf[start..end]` as an optionally negative decimal `i64`.
fn parse_signed(buf: &[u8], start: usize, end: usize) -> (r: Option<i64>)
    requires
        start <= end <= buf.len(),
    ensures
        match signed_value(buf@.subrange(start as int, end as int)) {
            Some(n) => r == Some(n as i64),
            None => r is None,
        },
{
    let ghost t = buf@.subrange(start as int, end as int);
    if start < end && buf[start] == MINUS {
        assert(t.drop_first() == buf@.subrange(start + 1, end as int));
        match parse_decimal(buf, start + 1, end, NUMBER_LIMIT + 1) {
            Some(m) => {
                if m == NUMBER_LIMIT + 1 {
                    Some(i64::MIN)
                } else {
                    Some(-(m as i64))
                }
            },
            None => None,
        }
    } else {
        match parse_decimal(buf, start, end, NUMBER_LIMIT) {
            Some(m) => Some(m as i64),
            None => None,
        }
    }
}

proof fn lemma_prepend_push(xs: Seq<SpecFrame>, f: SpecFrame, r: Parsed<Seq<SpecFrame>>)
    ensures
        prepend(xs, prepend(seq![f], r)) == prepend(xs.push(f), r),
{
    if let Parsed::Complete(fs, e) = r {
        assert(xs + (seq![f] + fs) =~= xs.push(f) + fs);
    }
}

/// Decodes the frame that starts at index `p` of `buf`, without consuming anything.
pub fn parse_frame_at(buf: &[u8], p: usize) -> (r: Result<Option<(Frame, usize)>, ProtocolError>)
    requires
        p <= buf.len(),
    ensures
        agrees(r, parse_at(buf@, p as int)),
    decreases buf.len() - p,
{
    if p >= buf.len() {
        return Ok(None);
    }
    let m = buf[p];
    if !(m == SIMPLE_MARK || m == ERROR_MARK || m == INTEGER_MARK || m == BULK_MARK || m == NULL_MARK
        || m == ARRAY_MARK) {
        return Err(ProtocolError::Invalid);
    }
    let i = match read_line_at(buf, p + 1) {
        Ok(Some(i)) => i,
        Ok(None) => {
            return Ok(None);
        },
        Err(_) => {
            return Err(ProtocolError::Invalid);
        },
    };
    if m == SIMPLE_MARK {
        Ok(Some((Frame::Simple(copy_range(buf, p + 1, i)), i + 2)))
    } else if m == ERROR_MARK {
        Ok(Some((Frame::Error(copy_range(buf, p + 1, i)), i + 2)))
    } else if m == INTEGER_MARK {
        match parse_signed(buf, p + 1, i) {
            Some(n) => Ok(Some((Frame::Integer(n), i + 2))),
            None => Err(ProtocolError::Invalid),
        }
    } else if m == NULL_MARK {
        if i == p + 1 {
            Ok(Some((Frame::Null, i + 2)))
        } else {
            Err(ProtocolError::Invalid)
        }
    } else if m == BULK_MARK {
        match parse_decimal(buf, p + 1, i, NUMBER_LIMIT) {
            None => Err(ProtocolError::Invalid),
            Some(n) => {
                let rem: usize = buf.len() - (i + 2);
                if rem < 2 || n > (rem - 2) as u64 {
                    Ok(None)
                } else {
                    let e: usize = i + 2 + n as usize;
                    if buf[e] == CR && buf[e + 1] == LF {
                        Ok(Some((Frame::Bulk(copy_range(buf, i + 2, e)), e + 2)))
                    } else {
                        Err(ProtocolError::Invalid)
                    }
                }
            },
        }
    } else {
        match parse_decimal(buf, p + 1, i, NUMBER_LIMIT) {
            None => Err(ProtocolError::Invalid),
            Some(count) => {
                let ghost s = buf@;
                let mut items: Vec<Frame> = Vec::new();
                let mut q: usize = i + 2;
                let mut j: u64 = 0;
                let ghost mut acc: Seq<SpecFrame> = Seq::empty();
                while j < count
                    invariant
                        s == buf@,
                        parse_at(s, p as int) == array_of(parse_items(s, i + 2, count as nat)),
                        p < q <= buf.len(),
                        i + 2 <= buf.len(),
                        j <= count,
                        items.len() == j,
                        acc.len() == j,
                        forall|k: int| 0 <= k < j ==> (#[trigger] items[k])@ == acc[k],
                        parse_items(s, i + 2, count as nat) == prepend(
                            acc,
                            parse_items(s, q as int, (count - j) as nat),
                        ),
                    decreases count - j,
                {
                    match parse_frame_at(buf, q) {
                        Ok(Some((f, q2))) => {
                            if !(q < q2 && q2 <= buf.len()) {
                                assert(parse_items(s, q as int, (count - j) as nat) is Invalid);
                                return Err(ProtocolError::Invalid);
                            }
                            proof {
                                lemma_prepend_push(
                                    acc,
                                    f@,
                                    parse_items(s, q2 as int, (count - j - 1) as nat),
                                );
                                acc = acc.push(f@);
                            }
                            items.push(f);
                            q = q2;
                            j += 1;
                        },
                        Ok(None) => {
                            assert(parse_items(s, q as int, (count - j) as nat) is Incomplete);
                            return Ok(None);
                        },
                        Err(_) => {
                            assert(parse_items(s, q as int, (count - j) as nat) is Invalid);
                            return Err(ProtocolError::Invalid);
                        },
                    }
                }
                let fr = Frame::Array(items);
                assert(fr@->Array_0 =~= acc);
                assert(acc + Seq::<SpecFrame>::empty() == acc);
                Ok(Some((fr, q)))
            },
        }
    }
}

/// Takes one complete frame off the front of `buffer`. When the bytes so far
/// are too few, returns `Ok(None)`; when they cannot form a frame, returns
/// `ProtocolError::Invalid`. In both cases `buffer` is left as it was.
pub fn try_read_frame(buffer: &mut Vec<u8>) -> (r: Result<Option<Frame>, ProtocolError>)
    ensures
        match parse_at(old(buffer)@, 0) {
            Parsed::Complete(f, n) => r is Ok && r->Ok_0 is Some && r->Ok_0->Some_0@ == f
                && final(buffer)@ == old(buffer)@.subrange(n, old(buffer)@.len() as int),
            Parsed::Incomplete => r == Ok::<Option<Frame>, ProtocolError>(None)
                && final(buffer)@ == old(buffer)@,
            Parsed::Invalid => r == Err::<Option<Frame>, ProtocolError>(ProtocolError::Invalid)
                && final(buffer)@ == old(buffer)@,
        },
{
    proof {
        lemma_parse_bounds(buffer@, 0);
    }
    match parse_frame_at(buffer.as_slice(), 0) {
        Ok(Some((f, n))) => {
            proof {
                lemma_parse_bounds(buffer@, 0);
            }
            let rest = copy_range(buffer.as_slice(), n, buffer.len());
            *buffer = rest;
            Ok(Some(f))
        },
        Ok(None) => Ok(None),
        Err(e) => Err(e),
    }
}

} // verus!
