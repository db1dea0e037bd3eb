//! Decoding inverts encoding, and a partial encoding asks for more bytes.
use vstd::prelude::*;
use crate::codec::{
    all_digits, digits_value, is_digit, line_stop, parse_at, parse_items, read_line,
    signed_value, Line, Parsed, NUMBER_LIMIT,
};
use crate::frame::{
    crlf, decimal, encode, encode_items, signed_decimal, SpecFrame, ARRAY_MARK, BULK_MARK, CR,
    ERROR_MARK, INTEGER_MARK, LF, NULL_MARK, SIMPLE_MARK,
};

verus! {

/// `t` holds neither a CR nor an LF byte.
pub open spec fn no_break(t: Seq<u8>) -> bool {
    forall|j: int| 0 <= j < t.len() ==> #[trigger] t[j] != CR && t[j] != LF
}

/// A frame that its encoding describes unambiguously: texts without line
/// breaks, integers within `i64`, and lengths and counts within the number limit.
pub open spec fn wf_frame(f: SpecFrame) -> bool
    decreases f,
{
    match f {
        SpecFrame::Simple(t) => no_break(t),
        SpecFrame::Error(t) => no_break(t),
        SpecFrame::Integer(n) => i64::MIN <= n <= i64::MAX,
        SpecFrame::Bulk(b) => b.len() <= NUMBER_LIMIT,
        SpecFrame::Null => true,
        SpecFrame::Array(items) => items.len() <= NUMBER_LIMIT && forall|i: int|
            0 <= i < items.len() ==> wf_frame(#[trigger] items[i]),
    }
}

proof fn lemma_decimal(n: nat)
    ensures
        decimal(n).len() >= 1,
        all_digits(decimal(n)),
        no_break(decimal(n)),
        digits_value(decimal(n)) == n,
    decreases n,
{
    if n >= 10 {
        lemma_decimal(n / 10);
        let d = decimal(n / 10);
        assert(decimal(n).drop_last() == d);
        let x = decimal(n).last();
        assert(x == (48 + n % 10) as u8);
        assert(x - 48 == n % 10);
        assert(digits_value(decimal(n)) == digits_value(d) * 10 + (x - 48) as nat);
        assert(n == (n / 10) * 10 + n % 10);
    } else {
        assert(decimal(n).drop_last() =~= Seq::<u8>::empty());
        let x = decimal(n).last();
        assert(x - 48 == n);
        assert(digits_value(decimal(n)) == digits_value(Seq::<u8>::empty()) * 10 + (x - 48) as nat);
    }
}

proof fn lemma_signed(n: int)
    requires
        i64::MIN <= n <= i64::MAX,
    ensures
        signed_value(signed_decimal(n)) == Some(n),
        no_break(signed_decimal(n)),
        signed_decimal(n).len() >= 1,
{
    if n < 0 {
        lemma_decimal((-n) as nat);
        let t = signed_decimal(n);
        assert(t.drop_first() == decimal((-n) as nat));
    } else {
        lemma_decimal(n as nat);
        assert(is_digit(decimal(n as nat)[0]));
    }
}

proof fn lemma_line_at(s: Seq<u8>, p: int, i: int)
    requires
        0 <= p <= i < s.len(),
        forall|j: int| p <= j < i ==> #[trigger] s[j] != CR && s[j] != LF,
        s[i] == CR,
    ensures
        line_stop(s, p) == i,
    decreases i - p,
{
    if p < i {
        lemma_line_at(s, p + 1, i);
    }
}

proof fn lemma_line_open(s: Seq<u8>, p: int)
    requires
        0 <= p <= s.len(),
        forall|j: int| p <= j < s.len() ==> #[trigger] s[j] != CR && s[j] != LF,
    ensures
        line_stop(s, p) == s.len(),
    decreases s.len() - p,
{
    if p < s.len() {
        lemma_line_open(s, p + 1);
    }
}

/// The line `m body CRLF` stands at `p` of `s`.
proof fn lemma_header(s: Seq<u8>, p: int, m: u8, body: Seq<u8>)
    requires
        0 <= p,
        p + body.len() + 3 <= s.len(),
        no_break(body),
        s.subrange(p, p + body.len() + 3) == seq![m] + body + crlf(),
    ensures
        s[p] == m,
        read_line(s, p + 1) == Line::Found(p + 1 + body.len()),
        s.subrange(p + 1, p + 1 + body.len()) == body,
{
    let h = seq![m] + body + crlf();
    assert(s[p] == h[0]);
    assert forall|j: int| p + 1 <= j < p + 1 + body.len() implies #[trigger] s[j] != CR && s[j]
        != LF by {
        assert(s[j] == h[j - p]);
        assert(h[j - p] == body[j - p - 1]);
    }
    assert(s[p + 1 + body.len()] == h[1 + body.len() as int]);
    assert(s[p + 2 + body.len()] == h[2 + body.len() as int]);
    lemma_line_at(s, p + 1, p + 1 + body.len());
    assert(s.subrange(p + 1, p + 1 + body.len()) =~= body) by {
        assert forall|j: int| 0 <= j < body.len() implies s.subrange(p + 1, p + 1 + body.len())[j]
            == body[j] by {
            assert(s[p + 1 + j] == h[1 + j]);
        }
    }
}

/// Only a beginning of the line `m body CRLF` stands at `p` of `s`.
proof fn lemma_header_prefix(s: Seq<u8>, p: int, m: u8, body: Seq<u8>)
    requires
        0 <= p < s.len() < p + body.len() + 3,
        no_break(body),
        s.subrange(p, s.len() as int) == (seq![m] + body + crlf()).subrange(0, s.len() - p),
    ensures
        s[p] == m,
        read_line(s, p + 1) == Line::Incomplete,
{
    let h = seq![m] + body + crlf();
    assert(s[p] == s.subrange(p, s.len() as int)[0]);
    let lim = if s.len() < p + 1 + body.len() {
        s.len() as int
    } else {
        p + 1 + body.len()
    };
    assert forall|j: int| p + 1 <= j < lim implies #[trigger] s[j] != CR && s[j] != LF by {
        assert(s[j] == s.subrange(p, s.len() as int)[j - p]);
        assert(h[j - p] == body[j - p - 1]);
    }
    if s.len() <= p + 1 + body.len() {
        lemma_line_open(s, p + 1);
    } else {
        assert(s[lim] == s.subrange(p, s.len() as int)[lim - p]);
        lemma_line_at(s, p + 1, lim);
    }
}

proof fn lemma_split_range(s: Seq<u8>, p: int, a: Seq<u8>, b: Seq<u8>)
    requires
        0 <= p,
        p + a.len() + b.len() <= s.len(),
        s.subrange(p, p + a.len() + b.len()) == a + b,
    ensures
        s.subrange(p, p + a.len()) == a,
        s.subrange(p + a.len(), p + a.len() + b.len()) == b,
{
    let w = s.subrange(p, p + a.len() + b.len());
    assert forall|j: int| 0 <= j < a.len() implies s.subrange(p, p + a.len())[j] == a[j] by {
        assert(w[j] == (a + b)[j]);
    }
    assert forall|j: int| 0 <= j < b.len() implies s.subrange(p + a.len(), p + a.len() + b.len())[j]
        == b[j] by {
        assert(w[a.len() + j] == (a + b)[a.len() + j]);
    }
    assert(s.subrange(p, p + a.len()) =~= a);
    assert(s.subrange(p + a.len(), p + a.len() + b.len()) =~= b);
}

/// Where the bytes from `p` to the end of `s` begin `a + b` and reach past `a`,
/// they hold `a`, then a beginning of `b`.
proof fn lemma_split_prefix(s: Seq<u8>, p: int, a: Seq<u8>, b: Seq<u8>)
    requires
        0 <= p,
        p + a.len() <= s.len() <= p + a.len() + b.len(),
        s.subrange(p, s.len() as int) == (a + b).subrange(0, s.len() - p),
    ensures
        s.subrange(p, p + a.len()) == a,
        s.subrange(p + a.len(), s.len() as int) == b.subrange(0, s.len() - p - a.len()),
{
    let w = s.subrange(p, s.len() as int);
    assert forall|j: int| 0 <= j < a.len() implies s.subrange(p, p + a.len())[j] == a[j] by {
        assert(w[j] == (a + b)[j]);
    }
    assert forall|j: int| 0 <= j < s.len() - p - a.len() implies #[trigger] s.subrange(
        p + a.len(),
        s.len() as int,
    )[j] == b.subrange(0, s.len() - p - a.len())[j] by {
        assert(w[a.len() + j] == (a + b)[a.len() + j]);
    }
    assert(s.subrange(p, p + a.len()) =~= a);
    assert(s.subrange(p + a.len(), s.len() as int) =~= b.subrange(0, s.len() - p - a.len()));
}

/// Where the bytes from `p` to the end of `s` begin `a + b` and stop within `a`,
/// they begin `a`.
proof fn lemma_prefix_within(s: Seq<u8>, p: int, a: Seq<u8>, b: Seq<u8>)
    requires
        0 <= p <= s.len() <= p + a.len(),
        s.subrange(p, s.len() as int) == (a + b).subrange(0, s.len() - p),
    ensures
        s.subrange(p, s.len() as int) == a.subrange(0, s.len() - p),
{
    assert((a + b).subrange(0, s.len() - p) =~= a.subrange(0, s.len() - p));
}

proof fn lemma_encode_nonempty(f: SpecFrame)
    ensures
        encode(f).len() >= 3,
{
}

proof fn lemma_encode_items_front(items: Seq<SpecFrame>)
    requires
        items.len() >= 1,
    ensures
        encode_items(items) == encode(items[0]) + encode_items(items.subrange(1, items.len() as int)),
    decreases items.len(),
{
    let rest = items.subrange(1, items.len() as int);
    if items.len() == 1 {
        assert(items.drop_last() =~= Seq::<SpecFrame>::empty());
        assert(rest =~= Seq::<SpecFrame>::empty());
        assert(encode_items(items) =~= encode(items[0]) + encode_items(rest));
    } else {
        let init = items.drop_last();
        lemma_encode_items_front(init);
        assert(rest.drop_last() =~= init.subrange(1, init.len() as int));
        assert(rest.last() == items.last());
        assert(encode_items(items) =~= encode(items[0]) + encode_items(rest));
    }
}

/// Decoding the encoding of a well-formed frame gives the frame back and
/// stops just past it, whatever follows.
pub proof fn lemma_parse_encoded(s: Seq<u8>, p: int, f: SpecFrame)
    requires
        wf_frame(f),
        0 <= p,
        p + encode(f).len() <= s.len(),
        s.subrange(p, p + encode(f).len()) == encode(f),
    ensures
        parse_at(s, p) == Parsed::Complete(f, p + encode(f).len()),
    decreases f,
{
    match f {
        SpecFrame::Simple(t) => {
            lemma_header(s, p, SIMPLE_MARK, t);
        },
        SpecFrame::Error(t) => {
            lemma_header(s, p, ERROR_MARK, t);
        },
        SpecFrame::Integer(n) => {
            lemma_signed(n);
            lemma_header(s, p, INTEGER_MARK, signed_decimal(n));
        },
        SpecFrame::Null => {
            assert(encode(f) =~= seq![NULL_MARK] + Seq::<u8>::empty() + crlf());
            lemma_header(s, p, NULL_MARK, Seq::<u8>::empty());
        },
        SpecFrame::Bulk(b) => {
            let d = decimal(b.len());
            lemma_decimal(b.len());
            let h = seq![BULK_MARK] + d + crlf();
            assert(encode(f) == h + (b + crlf())) by {
                assert(encode(f) =~= h + (b + crlf()));
            }
            lemma_split_range(s, p, h, b + crlf());
            lemma_header(s, p, BULK_MARK, d);
            lemma_split_range(s, p + h.len(), b, crlf());
            let e = p + h.len() + b.len();
            assert(s[e] == s.subrange(e, e + 2)[0]);
            assert(s[e + 1] == s.subrange(e, e + 2)[1]);
        },
        SpecFrame::Array(items) => {
            let d = decimal(items.len());
            lemma_decimal(items.len());
            let h = seq![ARRAY_MARK] + d + crlf();
            lemma_split_range(s, p, h, encode_items(items));
            lemma_header(s, p, ARRAY_MARK, d);
            lemma_items_encoded(s, p + h.len(), items);
        },
    }
}

proof fn lemma_items_encoded(s: Seq<u8>, p: int, items: Seq<SpecFrame>)
    requires
        forall|i: int| 0 <= i < items.len() ==> wf_frame(#[trigger] items[i]),
        0 <= p,
        p + encode_items(items).len() <= s.len(),
        s.subrange(p, p + encode_items(items).len()) == encode_items(items),
    ensures
        parse_items(s, p, items.len()) == Parsed::Complete(items, p + encode_items(items).len()),
    decreases items,
{
    if items.len() == 0 {
        assert(items =~= Seq::<SpecFrame>::empty());
    } else {
        lemma_encode_items_front(items);
        let x = items[0];
        let rest = items.subrange(1, items.len() as int);
        lemma_encode_nonempty(x);
        lemma_split_range(s, p, encode(x), encode_items(rest));
        lemma_parse_encoded(s, p, x);
        assert forall|i: int| 0 <= i < rest.len() implies wf_frame(#[trigger] rest[i]) by {
            assert(rest[i] == items[i + 1]);
        }
        lemma_items_encoded(s, p + encode(x).len(), rest);
        assert(seq![x] + rest =~= items);
    }
}

/// Decoding a beginning of the encoding of a well-formed frame that stops
/// short of its end asks for more bytes.
pub proof fn lemma_parse_partial(s: Seq<u8>, p: int, f: SpecFrame)
    requires
        wf_frame(f),
        0 <= p <= s.len() < p + encode(f).len(),
        s.subrange(p, s.len() as int) == encode(f).subrange(0, s.len() - p),
    ensures
        parse_at(s, p) == Parsed::<SpecFrame>::Incomplete,
    decreases f,
{
    if p < s.len() {
        match f {
            SpecFrame::Simple(t) => {
                lemma_header_prefix(s, p, SIMPLE_MARK, t);
            },
            SpecFrame::Error(t) => {
                lemma_header_prefix(s, p, ERROR_MARK, t);
            },
            SpecFrame::Integer(n) => {
                lemma_signed(n);
                lemma_header_prefix(s, p, INTEGER_MARK, signed_decimal(n));
            },
            SpecFrame::Null => {
                assert(encode(f) =~= seq![NULL_MARK] + Seq::<u8>::empty() + crlf());
                lemma_header_prefix(s, p, NULL_MARK, Seq::<u8>::empty());
            },
            SpecFrame::Bulk(b) => {
                let d = decimal(b.len());
                lemma_decimal(b.len());
                let h = seq![BULK_MARK] + d + crlf();
                assert(encode(f) == h + (b + crlf())) by {
                    assert(encode(f) =~= h + (b + crlf()));
                }
                if s.len() < p + h.len() {
                    lemma_prefix_within(s, p, h, b + crlf());
                    lemma_header_prefix(s, p, BULK_MARK, d);
                } else {
                    lemma_split_prefix(s, p, h, b + crlf());
                    lemma_header(s, p, BULK_MARK, d);
                }
            },
            SpecFrame::Array(items) => {
                let d = decimal(items.len());
                lemma_decimal(items.len());
                let h = seq![ARRAY_MARK] + d + crlf();
                if s.len() < p + h.len() {
                    lemma_prefix_within(s, p, h, encode_items(items));
                    lemma_header_prefix(s, p, ARRAY_MARK, d);
                } else {
                    lemma_split_prefix(s, p, h, encode_items(items));
                    lemma_header(s, p, ARRAY_MARK, d);
                    lemma_items_partial(s, p + h.len(), items);
                }
            },
        }
    }
}

proof fn lemma_items_partial(s: Seq<u8>, p: int, items: Seq<SpecFrame>)
    requires
        forall|i: int| 0 <= i < items.len() ==> wf_frame(#[trigger] items[i]),
        0 <= p <= s.len() < p + encode_items(items).len(),
        s.subrange(p, s.len() as int) == encode_items(items).subrange(0, s.len() - p),
    ensures
        parse_items(s, p, items.len()) == Parsed::<Seq<SpecFrame>>::Incomplete,
    decreases items,
{
    if items.len() > 0 {
        lemma_encode_items_front(items);
        let x = items[0];
        let rest = items.subrange(1, items.len() as int);
        lemma_encode_nonempty(x);
        if s.len() < p + encode(x).len() {
            lemma_prefix_within(s, p, encode(x), encode_items(rest));
            lemma_parse_partial(s, p, x);
        } else {
            lemma_split_prefix(s, p, encode(x), encode_items(rest));
            lemma_parse_encoded(s, p, x);
            assert forall|i: int| 0 <= i < rest.len() implies wf_frame(#[trigger] rest[i]) by {
                assert(rest[i] == items[i + 1]);
            }
            lemma_items_partial(s, p + encode(x).len(), rest);
        }
    }
}

/// A well-formed frame delivered in two pieces decodes as it does delivered
/// whole: the first piece alone asks for more bytes rather than failing, and
/// the two pieces together give the frame back, whatever bytes follow them.
pub proof fn lemma_split_delivery(f: SpecFrame, first: Seq<u8>, second: Seq<u8>, rest: Seq<u8>)
    requires
        wf_frame(f),
        first + second == encode(f),
        second.len() > 0,
    ensures
        parse_at(first, 0) == Parsed::<SpecFrame>::Incomplete,
        parse_at(first + second + rest, 0) == Parsed::Complete(f, encode(f).len() as int),
{
    let e = encode(f);
    assert(first.subrange(0, first.len() as int) =~= e.subrange(0, first.len() as int));
    lemma_parse_partial(first, 0, f);
    assert((first + second + rest).subrange(0, e.len() as int) =~= e);
    lemma_parse_encoded(first + second + rest, 0, f);
}

} // verus!
