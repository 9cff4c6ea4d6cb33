//! The wire format as mathematics: what a value encodes to, and what a byte
//! sequence parses to from a given position.
use vstd::prelude::*;

use crate::types::{Fault, Value};

verus! {

pub const CR: u8 = 13;

pub const LF: u8 = 10;

pub const COLON: u8 = 58;

pub const PLUS: u8 = 43;

pub const MINUS: u8 = 45;

pub const DOLLAR: u8 = 36;

pub const STAR: u8 = 42;

pub const ZERO: u8 = 48;

/// How deep arrays may nest in what is read: deeper input is refused rather
/// than followed down to the bottom of the stack.
pub const MAX_NESTING: u64 = 512;

pub open spec fn crlf() -> Seq<u8> {
    seq![CR, LF]
}

pub open spec fn is_digit(b: u8) -> bool {
    ZERO <= b <= ZERO + 9
}

pub open spec fn is_digit_at(s: Seq<u8>, i: int) -> bool {
    is_digit(s[i])
}

pub open spec fn all_digits(s: Seq<u8>) -> bool {
    forall|i: int| 0 <= i < s.len() ==> #[trigger] is_digit_at(s, i)
}

/// The decimal digits of `n`, most significant first, without leading zeros.
pub open spec fn digits_of(n: nat) -> Seq<u8>
    decreases n,
{
    if n < 10 {
        seq![(n + ZERO) as u8]
    } else {
        digits_of(n / 10).push(((n % 10) + ZERO) as u8)
    }
}

/// The decimal text of `n`, with a leading `-` when it is negative.
pub open spec fn int_text(n: int) -> Seq<u8> {
    if n < 0 {
        seq![MINUS] + digits_of((-n) as nat)
    } else {
        digits_of(n as nat)
    }
}

/// The number that a sequence of decimal digits denotes.
pub open spec fn digits_value(s: Seq<u8>) -> int
    decreases s.len(),
{
    if s.len() == 0 {
        0
    } else {
        digits_value(s.drop_last()) * 10 + (s.last() - ZERO)
    }
}

/// An optional sign followed by the digits that remain.
pub open spec fn sign_split(s: Seq<u8>) -> (bool, Seq<u8>) {
    if s.len() > 0 && s[0] == MINUS {
        (true, s.drop_first())
    } else if s.len() > 0 && s[0] == PLUS {
        (false, s.drop_first())
    } else {
        (false, s)
    }
}

/// A signed decimal integer field: an optional sign, then at least one digit,
/// naming a number in the range of `i64`.
pub open spec fn parse_int(s: Seq<u8>) -> Result<i64, Fault> {
    if s.len() == 0 {
        Err(Fault::MalformedInteger)
    } else {
        let (neg, d) = sign_split(s);
        let v = if neg {
            -digits_value(d)
        } else {
            digits_value(d)
        };
        if d.len() == 0 || !all_digits(d) || v < i64::MIN || v > i64::MAX {
            Err(Fault::InvalidInteger)
        } else {
            Ok(v as i64)
        }
    }
}

/// The index of the first line feed at or after `p`, or the length of `s`
/// when there is none.
pub open spec fn lf_index(s: Seq<u8>, p: int) -> int
    decreases s.len() - p,
{
    if p < 0 || p >= s.len() {
        s.len() as int
    } else if s[p] == LF {
        p
    } else {
        lf_index(s, p + 1)
    }
}

/// The line that starts at `p`: where its content ends, and where the next
/// line starts. A line runs to the first line feed and must end in CR LF.
pub open spec fn parse_line(s: Seq<u8>, p: int) -> Result<(int, int), Fault> {
    let e = lf_index(s, p);
    if p < 0 || e < p || e >= s.len() {
        Err(Fault::EndOfInput)
    } else if e == p || s[e - 1] != CR {
        Err(Fault::NoCrlf)
    } else {
        Ok((e - 1, e + 1))
    }
}

/// A bulk string body of `n` bytes at `p`, followed by an empty line.
pub open spec fn parse_bulk(s: Seq<u8>, p: int, n: int) -> Result<(Value, int), Fault> {
    if p + n > s.len() {
        Err(Fault::EndOfInput)
    } else {
        match parse_line(s, p + n) {
            Err(f) => Err(f),
            Ok((b, next)) => if b != p + n {
                Err(Fault::BadBulkTrailer)
            } else {
                Ok((Value::Bulk(s.subrange(p, p + n)), next))
            },
        }
    }
}

/// The value encoded at position `p` of `s`, and the position just past it.
pub open spec fn parse(s: Seq<u8>, p: int) -> Result<(Value, int), Fault> {
    parse_nested(s, p, MAX_NESTING as int)
}

/// The value encoded at position `p` of `s`, where arrays may nest `budget`
/// deep, and the position just past it.
pub open spec fn parse_nested(s: Seq<u8>, p: int, budget: int) -> Result<(Value, int), Fault>
    decreases s.len() - p, 0int, 0int,
{
    match parse_line(s, p) {
        Err(f) => Err(f),
        Ok((b, next)) => {
            if b <= p || next <= p || next > s.len() {
                Err(Fault::EmptyLine)
            } else {
                let tag = s[p];
                let field = s.subrange(p + 1, b);
                if tag == COLON {
                    match parse_int(field) {
                        Err(f) => Err(f),
                        Ok(n) => Ok((Value::Int(n), next)),
                    }
                } else if tag == PLUS {
                    Ok((Value::Bulk(field), next))
                } else if tag == MINUS {
                    Ok((Value::Error(field), next))
                } else if tag == DOLLAR {
                    match parse_int(field) {
                        Err(f) => Err(f),
                        Ok(n) => if n == -1 {
                            Ok((Value::NilBulk, next))
                        } else if n < -1 {
                            Err(Fault::MalformedLength)
                        } else {
                            parse_bulk(s, next, n as int)
                        },
                    }
                } else if tag == STAR {
                    match parse_int(field) {
                        Err(f) => Err(f),
                        Ok(n) => if n == -1 {
                            Ok((Value::NilArray, next))
                        } else if n < -1 {
                            Err(Fault::MalformedLength)
                        } else if budget <= 0 {
                            Err(Fault::TooDeep)
                        } else {
                            match parse_items(s, next, n as int, budget - 1) {
                                Err(f) => Err(f),
                                Ok((items, q)) => Ok((Value::Array(items), q)),
                            }
                        },
                    }
                } else {
                    Err(Fault::UnexpectedToken(tag))
                }
            }
        },
    }
}

/// `n` values in a row from position `p`, each with arrays nested at most
/// `budget` deep, and the position just past them.
pub open spec fn parse_items(s: Seq<u8>, p: int, n: int, budget: int) -> Result<
    (Seq<Value>, int),
    Fault,
>
    decreases s.len() - p, 1int, n,
{
    if n <= 0 {
        Ok((Seq::empty(), p))
    } else {
        match parse_nested(s, p, budget) {
            Err(f) => Err(f),
            Ok((v, q)) => if q <= p || q > s.len() {
                Err(Fault::EndOfInput)
            } else {
                match parse_items(s, q, n - 1, budget) {
                    Err(f) => Err(f),
                    Ok((vs, r)) => Ok((seq![v] + vs, r)),
                }
            },
        }
    }
}

/// The header line of a length-prefixed form: a tag and a decimal number.
pub open spec fn header(tag: u8, n: int) -> Seq<u8> {
    seq![tag] + int_text(n) + crlf()
}

/// The bytes that a value encodes to.
pub open spec fn encode(v: Value) -> Seq<u8>
    decreases v,
{
    match v {
        Value::Int(n) => header(COLON, n as int),
        Value::NilBulk => header(DOLLAR, -1),
        Value::NilArray => header(STAR, -1),
        Value::Bulk(b) => header(DOLLAR, b.len() as int) + b + crlf(),
        Value::Error(b) => seq![MINUS] + b + crlf(),
        Value::Array(items) => header(STAR, items.len() as int) + encodings(items).flatten(),
    }
}

/// The encodings of a sequence of values, one for each.
pub open spec fn encodings(items: Seq<Value>) -> Seq<Seq<u8>>
    decreases items,
{
    Seq::new(
        items.len(),
        |i: int|
            if 0 <= i < items.len() {
                encode(items[i])
            } else {
                Seq::empty()
            },
    )
}

/// The value that a command is sent as: an array of bulk strings.
pub open spec fn command_value(args: Seq<Seq<u8>>) -> Value {
    Value::Array(Seq::new(args.len(), |i: int| Value::Bulk(args[i])))
}

/// A digit string denotes a number no smaller than any of its prefixes does.
pub proof fn lemma_digits_value_prefix(s: Seq<u8>, k: int)
    requires
        all_digits(s),
        0 <= k <= s.len(),
    ensures
        0 <= digits_value(s.subrange(0, k)) <= digits_value(s),
    decreases s.len(),
{
    if s.len() > 0 {
        assert forall|i: int| 0 <= i < s.drop_last().len() implies #[trigger] is_digit_at(
            s.drop_last(),
            i,
        ) by {
            assert(is_digit_at(s, i));
        }
        assert(is_digit_at(s, s.len() - 1));
    }
    if k == s.len() {
        assert(s.subrange(0, k) =~= s);
        if s.len() > 0 {
            lemma_digits_value_prefix(s.drop_last(), k - 1);
            assert(s.drop_last().subrange(0, k - 1) =~= s.drop_last());
        }
    } else {
        lemma_digits_value_prefix(s.drop_last(), k);
        assert(s.drop_last().subrange(0, k) =~= s.subrange(0, k));
        lemma_digits_value_prefix(s.drop_last(), s.len() - 1);
        assert(s.drop_last().subrange(0, s.len() - 1) =~= s.drop_last());
    }
}

} // verus!
