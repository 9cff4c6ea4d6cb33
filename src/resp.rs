//! Decoding values from a byte stream and encoding them into one.
use vstd::prelude::*;
use vstd::string::StringSliceAdditionalSpecFns;

use crate::model::{
    command_value, crlf, digits_of, encode, encodings, header, int_text,
    all_digits, digits_value, is_digit_at, lemma_digits_value_prefix, parse, parse_bulk, parse_int,
    parse_items, parse_line, lf_index, parse_nested, sign_split, COLON, MAX_NESTING, CR, DOLLAR, LF, MINUS, PLUS, STAR, ZERO,
};
use crate::types::{fault_message, fault_text, Fault, RespError, RespValue, Value};

verus! {

/// What a run of values parsed after `vals` amounts to, counted from where
/// `vals` began.
spec fn prepend(vals: Seq<Value>, rest: Result<(Seq<Value>, int), Fault>) -> Result<
    (Seq<Value>, int),
    Fault,
> {
    match rest {
        Ok((vs, q)) => Ok((vals + vs, q)),
        Err(f) => Err(f),
    }
}

/// What one read at `pos` of `input` gives: the value encoded there, with the
/// reader moved to just past it; or the fault, reported as a parse failure,
/// with the reader where it was.
pub open spec fn reads_next(input: Seq<u8>, pos: int, r: Result<RespValue, RespError>, next: int) -> bool {
    match parse(input, pos) {
        Ok((v, q)) => r matches Ok(val) && val@ == v && next == q,
        Err(f) => r matches Err(RespError::ParseFailed(m)) && m@ == fault_text(f) && next == pos,
    }
}

/// Decodes values, one per call, from the bytes that have reached it.
pub struct RespReader {
    buf: Vec<u8>,
    pos: usize,
}

impl RespReader {
    #[verifier::type_invariant]
    spec fn inv(&self) -> bool {
        self.pos <= self.buf.len()
    }

    /// Every byte that has reached the reader, consumed or not.
    pub closed spec fn input(&self) -> Seq<u8> {
        self.buf@
    }

    /// Where in `input` the next value starts.
    pub closed spec fn position(&self) -> int {
        self.pos as int
    }

    /// A reader over the bytes of `input`, positioned at the first.
    pub fn new(input: Vec<u8>) -> (r: Self)
        ensures
            r.input() == input@,
            r.position() == 0,
    {
        RespReader { buf: input, pos: 0 }
    }

    /// The bytes from `a` up to `b`.
    fn bytes_between(&self, a: usize, b: usize) -> (r: Vec<u8>)
        requires
            a <= b <= self.buf.len(),
        ensures
            r@ == self.buf@.subrange(a as int, b as int),
    {
        let mut out: Vec<u8> = Vec::new();
        let mut i: usize = a;
        while i < b
            invariant
                a <= i <= b <= self.buf.len(),
                out@ == self.buf@.subrange(a as int, i as int),
            decreases b - i,
        {
            out.push(self.buf[i]);
            i += 1;
            assert(out@ =~= self.buf@.subrange(a as int, i as int));
        }
        out
    }

    /// The line that starts at `p`: where its content ends and where the
    /// next line starts.
    fn read_line(&self, p: usize) -> (r: Result<(usize, usize), Fault>)
        requires
            p <= self.buf.len(),
        ensures
            match r {
                Ok((b, next)) => parse_line(self.buf@, p as int) == Ok::<(int, int), Fault>(
                    (b as int, next as int),
                ),
                Err(f) => parse_line(self.buf@, p as int) == Err::<(int, int), Fault>(f),
            },
    {
        let mut i: usize = p;
        while i < self.buf.len() && self.buf[i] != LF
            invariant
                p <= i <= self.buf.len(),
                lf_index(self.buf@, p as int) == lf_index(self.buf@, i as int),
            decreases self.buf.len() - i,
        {
            i += 1;
        }
        if i >= self.buf.len() {
            return Err(Fault::EndOfInput);
        }
        if i == p || self.buf[i - 1] != CR {
            return Err(Fault::NoCrlf);
        }
        Ok((i - 1, i + 1))
    }

    /// The signed decimal number written in the bytes from `a` up to `b`.
    fn parse_int(&self, a: usize, b: usize) -> (r: Result<i64, Fault>)
        requires
            a <= b <= self.buf.len(),
        ensures
            r == parse_int(self.buf@.subrange(a as int, b as int)),
    {
        let ghost s = self.buf@.subrange(a as int, b as int);
        if a == b {
            return Err(Fault::MalformedInteger);
        }
        let neg = self.buf[a] == MINUS;
        let start: usize = if neg || self.buf[a] == PLUS {
            a + 1
        } else {
            a
        };
        let ghost d = self.buf@.subrange(start as int, b as int);
        assert(sign_split(s) == (neg, d)) by {
            if start == a + 1 {
                assert(s.drop_first() =~= d);
            } else {
                assert(s =~= d);
            }
        }
        if start == b {
            return Err(Fault::InvalidInteger);
        }
        let limit: u64 = if neg {
            0x8000_0000_0000_0000
        } else {
            0x7fff_ffff_ffff_ffff
        };
        let mut m: u64 = 0;
        let mut i: usize = start;
        assert(self.buf@.subrange(start as int, start as int) =~= Seq::<u8>::empty());
        while i < b
            invariant
                a < start || a == start,
                a < b,
                start <= i <= b <= self.buf.len(),
                s == self.buf@.subrange(a as int, b as int),
                d == self.buf@.subrange(start as int, b as int),
                sign_split(s) == (neg, d),
                limit == if neg {
                    0x8000_0000_0000_0000u64
                } else {
                    0x7fff_ffff_ffff_ffffu64
                },
                all_digits(self.buf@.subrange(start as int, i as int)),
                m as int == digits_value(self.buf@.subrange(start as int, i as int)),
                m <= limit,
            decreases b - i,
        {
            let c = self.buf[i];
            if c < ZERO || c > ZERO + 9 {
                assert(!all_digits(d)) by {
                    assert(d[i - start] == c);
                    assert(!is_digit_at(d, i - start));
                }
                assert(parse_int(s) == Err::<i64, Fault>(Fault::InvalidInteger));
                return Err(Fault::InvalidInteger);
            }
            let dig: u64 = (c - ZERO) as u64;
            let ghost prefix = self.buf@.subrange(start as int, i + 1);
            assert(prefix.drop_last() =~= self.buf@.subrange(start as int, i as int));
            assert(all_digits(prefix)) by {
                assert forall|j: int| 0 <= j < prefix.len() implies #[trigger] is_digit_at(
                    prefix,
                    j,
                ) by {
                    if j < prefix.len() - 1 {
                        assert(prefix[j] == self.buf@.subrange(start as int, i as int)[j]);
                        assert(is_digit_at(self.buf@.subrange(start as int, i as int), j));
                    }
                }
            }
            if m > (limit - dig) / 10 {
                assert(m * 10 + dig > limit) by (nonlinear_arith)
                    requires
                        m > (limit - dig) / 10,
                        dig <= limit,
                ;
                proof {
                    if all_digits(d) {
                        assert(prefix =~= d.subrange(0, i + 1 - start));
                        lemma_digits_value_prefix(d, i + 1 - start);
                    }
                }
                return Err(Fault::InvalidInteger);
            }
            assert(m * 10 + dig <= limit) by (nonlinear_arith)
                requires
                    m <= (limit - dig) / 10,
                    dig <= limit,
            ;
            m = m * 10 + dig;
            i += 1;
        }
        if neg {
            if m == limit {
                Ok(i64::MIN)
            } else {
                Ok(-(m as i64))
            }
        } else {
            Ok(m as i64)
        }
    }

    /// A bulk string body of `n` bytes at `p` and the empty line after it.
    fn read_bulk_string(&self, p: usize, n: u64) -> (r: Result<(Vec<u8>, usize), Fault>)
        requires
            p <= self.buf.len(),
        ensures
            match parse_bulk(self.buf@, p as int, n as int) {
                Ok((v, q)) => r matches Ok((body, next)) && v == Value::Bulk(body@) && next == q,
                Err(f) => r == Err::<(Vec<u8>, usize), Fault>(f),
            },
            r matches Ok((_, next)) ==> p < next <= self.buf.len(),
    {
        if n > (self.buf.len() - p) as u64 {
            return Err(Fault::EndOfInput);
        }
        let end: usize = p + n as usize;
        let body = self.bytes_between(p, end);
        match self.read_line(end) {
            Err(f) => Err(f),
            Ok((b, next)) => {
                if b != end {
                    Err(Fault::BadBulkTrailer)
                } else {
                    Ok((body, next))
                }
            },
        }
    }

    /// `n` values in a row from `p`, with arrays nested at most `budget`
    /// deep.
    fn read_array(&self, p: usize, n: u64, budget: u64) -> (r: Result<(Vec<RespValue>, usize), Fault>)
        requires
            p <= self.buf.len(),
        ensures
            match parse_items(self.buf@, p as int, n as int, budget as int) {
                Ok((vs, q)) => r matches Ok((items, next)) && items@.len() == vs.len() && (forall|
                    i: int,
                | 0 <= i < vs.len() ==> #[trigger] items@[i]@ == vs[i]) && next == q,
                Err(f) => r == Err::<(Vec<RespValue>, usize), Fault>(f),
            },
            r matches Ok((_, next)) ==> p <= next <= self.buf.len(),
        decreases self.buf@.len() - p, 1int, n,
    {
        let mut items: Vec<RespValue> = Vec::new();
        let ghost vals: Seq<Value> = Seq::empty();
        let mut q: usize = p;
        let mut k: u64 = 0;
        assert(vals + Seq::<Value>::empty() =~= vals);
        while k < n
            invariant
                p <= q <= self.buf.len(),
                k <= n,
                items@.len() == vals.len(),
                forall|i: int| 0 <= i < vals.len() ==> #[trigger] items@[i]@ == vals[i],
                parse_items(self.buf@, p as int, n as int, budget as int) == prepend(
                    vals,
                    parse_items(self.buf@, q as int, (n - k) as int, budget as int),
                ),
            decreases n - k,
        {
            match self.read_at(q, budget) {
                Err(f) => {
                    return Err(f);
                },
                Ok((v, next)) => {
                    let ghost vm = v@;
                    proof {
                        let rest = parse_items(
                            self.buf@,
                            next as int,
                            (n - k - 1) as int,
                            budget as int,
                        );
                        match rest {
                            Ok((vs, r)) => {
                                assert(vals.push(vm) + vs =~= vals + (seq![vm] + vs));
                            },
                            Err(_) => {},
                        }
                        vals = vals.push(vm);
                    }
                    items.push(v);
                    q = next;
                    k = k + 1;
                },
            }
        }
        proof {
            assert(vals + Seq::<Value>::empty() =~= vals);
        }
        Ok((items, q))
    }

    /// The value encoded at `p`, with arrays nested at most `budget` deep,
    /// and the position just past it.
    fn read_at(&self, p: usize, budget: u64) -> (r: Result<(RespValue, usize), Fault>)
        requires
            p <= self.buf.len(),
        ensures
            match parse_nested(self.buf@, p as int, budget as int) {
                Ok((v, q)) => r matches Ok((val, next)) && val@ == v && next == q,
                Err(f) => r == Err::<(RespValue, usize), Fault>(f),
            },
            r matches Ok((_, next)) ==> p < next <= self.buf.len(),
        decreases self.buf@.len() - p, 0int, 0int,
    {
        let (b, next) = match self.read_line(p) {
            Err(f) => {
                return Err(f);
            },
            Ok(line) => line,
        };
        if b == p {
            return Err(Fault::EmptyLine);
        }
        let tag = self.buf[p];
        if tag == COLON {
            match self.parse_int(p + 1, b) {
                Err(f) => Err(f),
                Ok(n) => Ok((RespValue::Int(n), next)),
            }
        } else if tag == PLUS {
            Ok((RespValue::Bulk(self.bytes_between(p + 1, b)), next))
        } else if tag == MINUS {
            Ok((RespValue::Error(self.bytes_between(p + 1, b)), next))
        } else if tag == DOLLAR {
            match self.parse_int(p + 1, b) {
                Err(f) => Err(f),
                Ok(n) => {
                    if n == -1 {
                        Ok((RespValue::NilBulk, next))
                    } else if n < -1 {
                        Err(Fault::MalformedLength)
                    } else {
                        match self.read_bulk_string(next, n as u64) {
                            Err(f) => Err(f),
                            Ok((body, q)) => Ok((RespValue::Bulk(body), q)),
                        }
                    }
                },
            }
        } else if tag == STAR {
            match self.parse_int(p + 1, b) {
                Err(f) => Err(f),
                Ok(n) => {
                    if n == -1 {
                        Ok((RespValue::NilArray, next))
                    } else if n < -1 {
                        Err(Fault::MalformedLength)
                    } else if budget == 0 {
                        Err(Fault::TooDeep)
                    } else {
                        match self.read_array(next, n as u64, budget - 1) {
                            Err(f) => Err(f),
                            Ok((items, q)) => {
                                let ghost vs = match parse_items(
                                    self.buf@,
                                    next as int,
                                    n as int,
                                    (budget - 1) as int,
                                ) {
                                    Ok((vs, _)) => vs,
                                    Err(_) => Seq::empty(),
                                };
                                let v = RespValue::Array(items);
                                proof {
                                    v.lemma_array_view();
                                }
                                assert(v@->Array_0 =~= vs);
                                Ok((v, q))
                            },
                        }
                    }
                },
            }
        } else {
            Err(Fault::UnexpectedToken(tag))
        }
    }

    /// Decodes the next value and moves past it. On failure the reader is
    /// left as it was.
    pub fn read(&mut self) -> (r: Result<RespValue, RespError>)
        ensures
            final(self).input() == old(self).input(),
            reads_next(old(self).input(), old(self).position(), r, final(self).position()),
    {
        proof {
            use_type_invariant(&*self);
        }
        match self.read_at(self.pos, MAX_NESTING) {
            Ok((v, next)) => {
                self.pos = next;
                Ok(v)
            },
            Err(f) => Err(RespError::ParseFailed(fault_message(f))),
        }
    }

    /// Appends bytes that have arrived from the transport.
    pub fn feed(&mut self, bytes: &[u8])
        ensures
            final(self).input() == old(self).input() + bytes@,
            final(self).position() == old(self).position(),
    {
        let mut taken = RespReader::new(Vec::new());
        std::mem::swap(&mut taken, self);
        proof {
            use_type_invariant(&taken);
        }
        let RespReader { mut buf, pos } = taken;
        buf.extend_from_slice(bytes);
        *self = RespReader { buf, pos };
    }

    /// Whether the bytes that have arrived end before the next value does,
    /// so that `read` would fail for want of input alone.
    pub fn awaits_input(&self) -> (r: bool)
        ensures
            r == (parse(self.input(), self.position()) == Err::<(Value, int), Fault>(
                Fault::EndOfInput,
            )),
    {
        proof {
            use_type_invariant(self);
        }
        match self.read_at(self.pos, MAX_NESTING) {
            Err(Fault::EndOfInput) => true,
            _ => false,
        }
    }
}

/// Appends the decimal digits of `m`.
fn push_digits(out: &mut Vec<u8>, m: u64)
    ensures
        final(out)@ == old(out)@ + digits_of(m as nat),
    decreases m,
{
    if m >= 10 {
        push_digits(out, m / 10);
    }
    out.push(ZERO + (m % 10) as u8);
    proof {
        if m >= 10 {
            assert(old(out)@ + digits_of((m / 10) as nat) + seq![(ZERO + (m % 10) as u8) as u8]
                =~= old(out)@ + digits_of(m as nat));
        } else {
            assert(old(out)@.push((ZERO + m as u8) as u8) =~= old(out)@ + digits_of(m as nat));
        }
    }
}

/// Appends the decimal text of `n`.
pub(crate) fn push_int_text(out: &mut Vec<u8>, n: i64)
    ensures
        final(out)@ == old(out)@ + int_text(n as int),
{
    if n < 0 {
        out.push(MINUS);
        let m: u64 = (-(n + 1)) as u64 + 1;
        push_digits(out, m);
        assert(old(out)@.push(MINUS) + digits_of(m as nat) =~= old(out)@ + (seq![MINUS]
            + digits_of(m as nat)));
    } else {
        push_digits(out, n as u64);
    }
}

/// Appends a header line: a tag and a number.
fn push_header(out: &mut Vec<u8>, tag: u8, n: i64)
    ensures
        final(out)@ == old(out)@ + header(tag, n as int),
{
    out.push(tag);
    push_int_text(out, n);
    out.push(CR);
    out.push(LF);
    assert(old(out)@.push(tag) + int_text(n as int) + seq![CR, LF] =~= old(out)@ + header(
        tag,
        n as int,
    ));
}

/// Appends a header line whose number is a length.
fn push_len_header(out: &mut Vec<u8>, tag: u8, n: usize)
    ensures
        final(out)@ == old(out)@ + header(tag, n as int),
{
    out.push(tag);
    push_digits(out, n as u64);
    out.push(CR);
    out.push(LF);
    assert(old(out)@.push(tag) + digits_of(n as nat) + seq![CR, LF] =~= old(out)@ + header(
        tag,
        n as int,
    ));
}

/// Appends a tag, the bytes given, and CR LF.
fn push_line(out: &mut Vec<u8>, tag: u8, b: &[u8])
    ensures
        final(out)@ == old(out)@ + (seq![tag] + b@ + crlf()),
{
    out.push(tag);
    out.extend_from_slice(b);
    out.push(CR);
    out.push(LF);
    assert(old(out)@.push(tag) + b@ + seq![CR, LF] =~= old(out)@ + (seq![tag] + b@ + crlf()));
}

/// Encodes values into bytes for a transport. What is written waits in a
/// buffer until `flush` hands it on.
pub struct RespWriter {
    sent: Vec<u8>,
    pending: Vec<u8>,
}

impl RespWriter {
    /// The bytes handed on to the transport.
    pub closed spec fn sent(&self) -> Seq<u8> {
        self.sent@
    }

    /// The bytes written and not yet flushed.
    pub closed spec fn pending(&self) -> Seq<u8> {
        self.pending@
    }

    /// A writer whose transport already holds the bytes of `sink`.
    pub fn new(sink: Vec<u8>) -> (r: Self)
        ensures
            r.sent() == sink@,
            r.pending() == Seq::<u8>::empty(),
    {
        RespWriter { sent: sink, pending: Vec::new() }
    }

    /// Flushes, and gives up the bytes that the transport holds.
    pub fn into_inner(self) -> (r: Vec<u8>)
        ensures
            r@ == self.sent() + self.pending(),
    {
        let mut w = self;
        let _ = w.flush();
        w.sent
    }

    /// Writes an integer: `:<n>` and CR LF.
    pub fn write_int(&mut self, n: i64) -> (r: Result<(), RespError>)
        ensures
            r == Ok::<(), RespError>(()),
            final(self).sent() == old(self).sent(),
            final(self).pending() == old(self).pending() + encode(Value::Int(n)),
    {
        push_header(&mut self.pending, COLON, n);
        Ok(())
    }

    /// Writes a bulk string: `$<len>`, CR LF, the bytes, CR LF.
    pub fn write_bulk(&mut self, b: &[u8]) -> (r: Result<(), RespError>)
        ensures
            r == Ok::<(), RespError>(()),
            final(self).sent() == old(self).sent(),
            final(self).pending() == old(self).pending() + encode(Value::Bulk(b@)),
    {
        push_len_header(&mut self.pending, DOLLAR, b.len());
        self.pending.extend_from_slice(b);
        self.pending.push(CR);
        self.pending.push(LF);
        assert(old(self).pending@ + header(DOLLAR, b@.len() as int) + b@ + seq![CR, LF]
            =~= old(self).pending@ + encode(Value::Bulk(b@)));
        Ok(())
    }

    /// Writes a command: an array holding one bulk string per argument.
    pub fn write_bulks(&mut self, bs: &[&[u8]]) -> (r: Result<(), RespError>)
        ensures
            r == Ok::<(), RespError>(()),
            final(self).sent() == old(self).sent(),
            final(self).pending() == old(self).pending() + encode(
                command_value(bs@.map_values(|b: &[u8]| b@)),
            ),
    {
        let ghost args = bs@.map_values(|b: &[u8]| b@);
        let ghost items = Seq::new(args.len(), |i: int| Value::Bulk(args[i]));
        push_len_header(&mut self.pending, STAR, bs.len());
        let mut i: usize = 0;
        assert(encodings(items.take(0)).flatten() =~= Seq::<u8>::empty());
        assert(old(self).pending@ + header(STAR, bs@.len() as int) =~= old(self).pending@ + header(
            STAR,
            items.len() as int,
        ) + encodings(items.take(0)).flatten());
        while i < bs.len()
            invariant
                0 <= i <= bs@.len(),
                args == bs@.map_values(|b: &[u8]| b@),
                items == Seq::new(args.len(), |i: int| Value::Bulk(args[i])),
                self.sent@ == old(self).sent@,
                self.pending@ == old(self).pending@ + header(STAR, items.len() as int)
                    + encodings(items.take(i as int)).flatten(),
            decreases bs@.len() - i,
        {
            self.write_bulk(bs[i]);
            proof {
                assert(encodings(items.take(i + 1)) =~= encodings(items.take(i as int)).push(
                    encode(items[i as int]),
                ));
                encodings(items.take(i as int)).lemma_flatten_push(encode(items[i as int]));
            }
            i += 1;
        }
        proof {
            assert(items.take(bs@.len() as int) =~= items);
        }
        Ok(())
    }

    /// Writes a status line: `+`, the text, CR LF. The text is the caller's
    /// to keep free of CR and LF, else it does not read back as one line.
    pub fn write_status(&mut self, s: &str) -> (r: Result<(), RespError>)
        ensures
            r == Ok::<(), RespError>(()),
            final(self).sent() == old(self).sent(),
            final(self).pending() == old(self).pending() + (seq![PLUS] + s.spec_bytes() + crlf()),
    {
        push_line(&mut self.pending, PLUS, s.as_bytes());
        Ok(())
    }

    /// Writes an error line: `-`, the text, CR LF.
    pub fn write_error(&mut self, s: &str) -> (r: Result<(), RespError>)
        ensures
            r == Ok::<(), RespError>(()),
            final(self).sent() == old(self).sent(),
            final(self).pending() == old(self).pending() + encode(Value::Error(s.spec_bytes())),
    {
        push_line(&mut self.pending, MINUS, s.as_bytes());
        Ok(())
    }

    /// Writes an array: `*<len>`, CR LF, then each element in order.
    pub fn write_array(&mut self, arr: &[RespValue]) -> (r: Result<(), RespError>)
        ensures
            r == Ok::<(), RespError>(()),
            final(self).sent() == old(self).sent(),
            final(self).pending() == old(self).pending() + encode(
                Value::Array(arr@.map_values(|v: RespValue| v@)),
            ),
    {
        let ghost items = arr@.map_values(|v: RespValue| v@);
        push_len_header(&mut self.pending, STAR, arr.len());
        let mut i: usize = 0;
        assert(encodings(items.take(0)).flatten() =~= Seq::<u8>::empty());
        assert(old(self).pending@ + header(STAR, arr@.len() as int) =~= old(self).pending@ + header(
            STAR,
            items.len() as int,
        ) + encodings(items.take(0)).flatten());
        while i < arr.len()
            invariant
                0 <= i <= arr@.len(),
                items == arr@.map_values(|v: RespValue| v@),
                self.sent@ == old(self).sent@,
                self.pending@ == old(self).pending@ + header(STAR, items.len() as int)
                    + encodings(items.take(i as int)).flatten(),
            decreases arr@.len() - i,
        {
            self.write(&arr[i]);
            proof {
                assert(encodings(items.take(i + 1)) =~= encodings(items.take(i as int)).push(
                    encode(items[i as int]),
                ));
                encodings(items.take(i as int)).lemma_flatten_push(encode(items[i as int]));
            }
            i += 1;
        }
        proof {
            assert(items.take(arr@.len() as int) =~= items);
        }
        Ok(())
    }

    /// Writes any value in its wire form.
    pub fn write(&mut self, v: &RespValue) -> (r: Result<(), RespError>)
        ensures
            r == Ok::<(), RespError>(()),
            final(self).sent() == old(self).sent(),
            final(self).pending() == old(self).pending() + encode(v@),
        decreases v,
    {
        match v {
            RespValue::Int(n) => {
                push_header(&mut self.pending, COLON, *n);
            },
            RespValue::Bulk(b) => {
                let _ = self.write_bulk(b.as_slice());
            },
            RespValue::Error(b) => {
                push_line(&mut self.pending, MINUS, b.as_slice());
            },
            RespValue::NilBulk => {
                push_header(&mut self.pending, DOLLAR, -1);
            },
            RespValue::NilArray => {
                push_header(&mut self.pending, STAR, -1);
            },
            RespValue::Array(items) => {
                let ghost vals = v@->Array_0;
                proof {
                    v.lemma_array_view();
                }
                push_len_header(&mut self.pending, STAR, items.len());
                let mut i: usize = 0;
                assert(encodings(vals.take(0)).flatten() =~= Seq::<u8>::empty());
                assert(old(self).pending@ + header(STAR, items@.len() as int) =~= old(
                    self,
                ).pending@ + header(STAR, vals.len() as int) + encodings(
                    vals.take(0),
                ).flatten());
                while i < items.len()
                    invariant
                        0 <= i <= items@.len(),
                        vals.len() == items@.len(),
                        forall|j: int| 0 <= j < items@.len() ==> #[trigger] vals[j] == items@[j]@,
                        *v == RespValue::Array(*items),
                        self.sent@ == old(self).sent@,
                        self.pending@ == old(self).pending@ + header(STAR, vals.len() as int)
                            + encodings(vals.take(i as int)).flatten(),
                    decreases items@.len() - i,
                {
                    proof {
                        assert(decreases_to!(*v => v->Array_0));
                        assert(decreases_to!(*items => items@));
                        assert(decreases_to!(items@ => items@[i as int]));
                    }
                    self.write(&items[i]);
                    proof {
                        assert(encodings(vals.take(i + 1)) =~= encodings(
                            vals.take(i as int),
                        ).push(encode(vals[i as int])));
                        encodings(vals.take(i as int)).lemma_flatten_push(encode(vals[i as int]));
                    }
                    i += 1;
                }
                proof {
                    assert(vals.take(items@.len() as int) =~= vals);
                }
            },
        }
        Ok(())
    }

    /// Hands what is pending on to the transport. With nothing pending it
    /// changes nothing.
    pub fn flush(&mut self) -> (r: Result<(), RespError>)
        ensures
            r == Ok::<(), RespError>(()),
            final(self).sent() == old(self).sent() + old(self).pending(),
            final(self).pending() == Seq::<u8>::empty(),
            old(self).pending() == Seq::<u8>::empty() ==> *final(self) == *old(self),
    {
        if self.pending.len() > 0 {
            self.sent.append(&mut self.pending);
        }
        assert(old(self).sent@ + Seq::<u8>::empty() =~= old(self).sent@);
        Ok(())
    }

    /// Takes the bytes that the transport holds, leaving it empty.
    pub fn take_sent(&mut self) -> (r: Vec<u8>)
        ensures
            r@ == old(self).sent(),
            final(self).sent() == Seq::<u8>::empty(),
            final(self).pending() == old(self).pending(),
    {
        let mut out: Vec<u8> = Vec::new();
        std::mem::swap(&mut out, &mut self.sent);
        out
    }
}

} // verus!
