//! What holds of the reader and the writer together.
use vstd::prelude::*;

use crate::model::{
    all_digits, crlf, digits_of, digits_value, encode, encodings, header, int_text, is_digit_at,
    lf_index, parse, parse_int, parse_items, parse_nested, parse_line, sign_split, CR, LF,
    MINUS, MAX_NESTING, STAR, ZERO,
};
use crate::types::{Fault, Value};

verus! {

/// A value that the wire form carries unchanged: every length and count fits
/// in `i64`, no error text holds a line feed, and arrays nest no deeper than
/// the reader follows.
pub open spec fn wire_safe(v: Value) -> bool {
    fits_within(v, MAX_NESTING as int)
}

/// `v` is carried unchanged by a reader that follows arrays `budget` deep.
pub open spec fn fits_within(v: Value, budget: int) -> bool
    decreases v,
{
    match v {
        Value::Bulk(b) => b.len() <= i64::MAX,
        Value::Error(b) => forall|j: int| 0 <= j < b.len() ==> #[trigger] b[j] != LF,
        Value::Array(items) => budget > 0 && items.len() <= i64::MAX && all_fit_within(
            items,
            budget - 1,
        ),
        _ => true,
    }
}

/// Every value of the sequence fits within `budget`.
pub open spec fn all_fit_within(items: Seq<Value>, budget: int) -> bool
    decreases items,
{
    items.len() == 0 || (fits_within(items[0], budget) && all_fit_within(
        items.drop_first(),
        budget,
    ))
}

/// The decimal digits of a number are digits, at least one, and denote it.
proof fn lemma_digits_of(m: nat)
    ensures
        digits_of(m).len() >= 1,
        all_digits(digits_of(m)),
        digits_value(digits_of(m)) == m,
    decreases m,
{
    let d = digits_of(m);
    if m < 10 {
        assert(d.drop_last() =~= Seq::<u8>::empty());
        assert(digits_value(d.drop_last()) == 0);
        assert(d.last() == m + ZERO);
        assert(is_digit_at(d, 0));
    } else {
        lemma_digits_of(m / 10);
        let h = digits_of(m / 10);
        assert(d.drop_last() =~= h);
        assert forall|i: int| 0 <= i < d.len() implies #[trigger] is_digit_at(d, i) by {
            if i < h.len() {
                assert(is_digit_at(h, i));
            }
        }
    }
}

/// The decimal text of a number holds neither CR nor LF, and reads back as
/// that number.
proof fn lemma_int_text(n: int)
    requires
        i64::MIN <= n <= i64::MAX,
    ensures
        int_text(n).len() >= 1,
        forall|j: int| 0 <= j < int_text(n).len() ==> #[trigger] int_text(n)[j] != LF,
        forall|j: int| 0 <= j < int_text(n).len() ==> #[trigger] int_text(n)[j] != CR,
        parse_int(int_text(n)) == Ok::<i64, Fault>(n as i64),
{
    let t = int_text(n);
    if n < 0 {
        let d = digits_of((-n) as nat);
        lemma_digits_of((-n) as nat);
        assert(t.drop_first() =~= d);
        assert(sign_split(t) == (true, d));
        assert forall|j: int| 0 <= j < t.len() implies #[trigger] t[j] != LF && t[j] != CR by {
            if j > 0 {
                assert(t[j] == d[j - 1]);
                assert(is_digit_at(d, j - 1));
            }
        }
    } else {
        lemma_digits_of(n as nat);
        assert(is_digit_at(t, 0));
        assert(sign_split(t) == (false, t));
        assert forall|j: int| 0 <= j < t.len() implies #[trigger] t[j] != LF && t[j] != CR by {
            assert(is_digit_at(t, j));
        }
    }
}

/// Where `e` stands at `p` in `s`, each of its bytes does.
proof fn lemma_at(s: Seq<u8>, p: int, e: Seq<u8>)
    requires
        0 <= p,
        p + e.len() <= s.len(),
        s.subrange(p, p + e.len()) == e,
    ensures
        forall|j: int| 0 <= j < e.len() ==> s[p + j] == #[trigger] e[j],
{
    assert forall|j: int| 0 <= j < e.len() implies s[p + j] == #[trigger] e[j] by {
        assert(s.subrange(p, p + e.len())[j] == s[p + j]);
    }
}

/// Where `a + b` stands at `p` in `s`, `a` stands at `p` and `b` right after.
proof fn lemma_split(s: Seq<u8>, p: int, a: Seq<u8>, b: Seq<u8>)
    requires
        0 <= p,
        p + a.len() + b.len() <= s.len(),
        s.subrange(p, p + a.len() + b.len()) == a + b,
    ensures
        s.subrange(p, p + a.len()) == a,
        s.subrange(p + a.len(), p + a.len() + b.len()) == b,
{
    let w = s.subrange(p, p + a.len() + b.len());
    assert(s.subrange(p, p + a.len()) =~= w.subrange(0, a.len() as int));
    assert(w.subrange(0, a.len() as int) =~= a);
    assert(s.subrange(p + a.len(), p + a.len() + b.len()) =~= w.subrange(
        a.len() as int,
        w.len() as int,
    ));
    assert(w.subrange(a.len() as int, w.len() as int) =~= b);
}

/// Skipping bytes that are no line feed does not move the next line feed.
proof fn lemma_lf_index_skip(s: Seq<u8>, p: int, q: int)
    requires
        0 <= p <= q <= s.len(),
        forall|j: int| p <= j < q ==> s[j] != LF,
    ensures
        lf_index(s, p) == lf_index(s, q),
    decreases q - p,
{
    if p < q {
        lemma_lf_index_skip(s, p + 1, q);
    }
}

/// A line of `k` bytes free of line feeds, then CR LF, is read as such.
proof fn lemma_line(s: Seq<u8>, p: int, k: int)
    requires
        0 <= p,
        0 <= k,
        p + k + 2 <= s.len(),
        forall|j: int| p <= j < p + k ==> s[j] != LF,
        s[p + k] == CR,
        s[p + k + 1] == LF,
    ensures
        parse_line(s, p) == Ok::<(int, int), Fault>((p + k, p + k + 2)),
{
    lemma_lf_index_skip(s, p, p + k + 1);
}

/// A header line at `p` is read as a line whose content is its tag and its
/// number.
proof fn lemma_header(s: Seq<u8>, p: int, tag: u8, n: int)
    requires
        0 <= p,
        p + header(tag, n).len() <= s.len(),
        s.subrange(p, p + header(tag, n).len()) == header(tag, n),
        i64::MIN <= n <= i64::MAX,
        tag != LF,
    ensures
        header(tag, n).len() == int_text(n).len() + 3,
        s[p] == tag,
        parse_line(s, p) == Ok::<(int, int), Fault>(
            (p + 1 + int_text(n).len(), p + header(tag, n).len()),
        ),
        s.subrange(p + 1, p + 1 + int_text(n).len()) == int_text(n),
        parse_int(int_text(n)) == Ok::<i64, Fault>(n as i64),
{
    let t = int_text(n);
    let h = header(tag, n);
    lemma_int_text(n);
    lemma_at(s, p, h);
    assert(h[0] == tag);
    assert(h[1 + t.len() as int] == CR);
    assert(h[2 + t.len() as int] == LF);
    assert forall|j: int| p <= j < p + 1 + t.len() implies s[j] != LF by {
        if j > p {
            assert(h[j - p] == t[j - p - 1]);
        } else {
            assert(h[j - p] == tag);
        }
    }
    lemma_line(s, p, 1 + t.len() as int);
    assert(s.subrange(p + 1, p + 1 + t.len()) =~= t) by {
        assert forall|j: int| 0 <= j < t.len() implies s.subrange(p + 1, p + 1 + t.len())[j]
            == t[j] by {
            assert(h[1 + j] == t[j]);
        }
    }
}

/// Every encoding holds at least one byte.
proof fn lemma_encode_nonempty(v: Value)
    ensures
        encode(v).len() > 0,
{
}

/// The encoding of a value, wherever it stands, is parsed back as that value,
/// and parsing stops right after it.
proof fn lemma_parse_encoded(v: Value, s: Seq<u8>, p: int, budget: int)
    requires
        fits_within(v, budget),
        0 <= p,
        p + encode(v).len() <= s.len(),
        s.subrange(p, p + encode(v).len()) == encode(v),
    ensures
        parse_nested(s, p, budget) == Ok::<(Value, int), Fault>((v, p + encode(v).len())),
    decreases v,
{
    let e = encode(v);
    match v {
        Value::Int(n) => {
            lemma_header(s, p, crate::model::COLON, n as int);
        },
        Value::NilBulk => {
            lemma_header(s, p, crate::model::DOLLAR, -1);
        },
        Value::NilArray => {
            lemma_header(s, p, STAR, -1);
        },
        Value::Bulk(b) => {
            let h = header(crate::model::DOLLAR, b.len() as int);
            assert(e == h + (b + crlf())) by {
                assert(e =~= h + (b + crlf()));
            }
            lemma_split(s, p, h, b + crlf());
            lemma_header(s, p, crate::model::DOLLAR, b.len() as int);
            let next = p + h.len();
            lemma_split(s, next, b, crlf());
            lemma_at(s, next + b.len(), crlf());
            assert(crlf()[0] == CR && crlf()[1] == LF);
            lemma_line(s, next + b.len(), 0);
        },
        Value::Error(b) => {
            lemma_at(s, p, e);
            assert(e[0] == MINUS);
            assert(e[1 + b.len() as int] == CR);
            assert(e[2 + b.len() as int] == LF);
            assert forall|j: int| p <= j < p + 1 + b.len() implies s[j] != LF by {
                if j > p {
                    assert(e[j - p] == b[j - p - 1]);
                } else {
                    assert(e[j - p] == MINUS);
                }
            }
            lemma_line(s, p, 1 + b.len() as int);
            assert(s.subrange(p + 1, p + 1 + b.len()) =~= b) by {
                assert forall|j: int| 0 <= j < b.len() implies s.subrange(
                    p + 1,
                    p + 1 + b.len(),
                )[j] == b[j] by {
                    assert(e[1 + j] == b[j]);
                }
            }
        },
        Value::Array(items) => {
            let h = header(STAR, items.len() as int);
            let f = encodings(items).flatten();
            lemma_split(s, p, h, f);
            lemma_header(s, p, STAR, items.len() as int);
            lemma_parse_items_encoded(items, s, p + h.len(), budget - 1);
        },
    }
}

/// The encodings of several values in a row are parsed back as those values.
proof fn lemma_parse_items_encoded(items: Seq<Value>, s: Seq<u8>, p: int, budget: int)
    requires
        all_fit_within(items, budget),
        0 <= p,
        p + encodings(items).flatten().len() <= s.len(),
        s.subrange(p, p + encodings(items).flatten().len()) == encodings(items).flatten(),
    ensures
        parse_items(s, p, items.len() as int, budget) == Ok::<(Seq<Value>, int), Fault>(
            (items, p + encodings(items).flatten().len()),
        ),
    decreases items,
{
    if items.len() == 0 {
        assert(items =~= Seq::<Value>::empty());
    } else {
        let first = items[0];
        let rest = items.drop_first();
        let e0 = encode(first);
        let fr = encodings(rest).flatten();
        assert(encodings(items).drop_first() =~= encodings(rest));
        assert(encodings(items).flatten() == e0 + fr);
        lemma_split(s, p, e0, fr);
        lemma_parse_encoded(first, s, p, budget);
        lemma_encode_nonempty(first);
        assert(decreases_to!(items => rest));
        lemma_parse_items_encoded(rest, s, p + e0.len(), budget);
        assert(seq![first] + rest =~= items);
    }
}

/// Reading back what was written gives the value written, for every value
/// whose lengths fit the wire form, whose error text holds no line feed and
/// whose arrays nest within the reader's limit; whatever follows the value is
/// left unread.
pub proof fn lemma_round_trip(v: Value, rest: Seq<u8>)
    requires
        wire_safe(v),
    ensures
        parse(encode(v) + rest, 0) == Ok::<(Value, int), Fault>((v, encode(v).len() as int)),
{
    let s = encode(v) + rest;
    assert(s.subrange(0, encode(v).len() as int) =~= encode(v));
    lemma_parse_encoded(v, s, 0, MAX_NESTING as int);
}

} // verus!
