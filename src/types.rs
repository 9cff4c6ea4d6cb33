//! Protocol values, their model, and the ways decoding and connecting fail.
use vstd::prelude::*;
use vstd::string::StringExecFns;

use crate::model::int_text;
use crate::resp::push_int_text;

verus! {

/// The mathematical model of a protocol value.
pub enum Value {
    Int(i64),
    NilBulk,
    NilArray,
    Bulk(Seq<u8>),
    Array(Seq<Value>),
    Error(Seq<u8>),
}

/// Why a byte sequence is not a well-formed value.
#[derive(Clone, Copy, Debug, PartialEq, Eq, Structural)]
pub enum Fault {
    /// The input ends before the value does.
    EndOfInput,
    /// A line does not end with CR LF.
    NoCrlf,
    /// A line holds no type tag.
    EmptyLine,
    /// A number field is empty.
    MalformedInteger,
    /// A number field is not a decimal number in the range of `i64`.
    InvalidInteger,
    /// A length or count below -1.
    MalformedLength,
    /// A bulk string body is not followed by an empty line.
    BadBulkTrailer,
    /// A line starts with a byte that is no type tag.
    UnexpectedToken(u8),
    /// Arrays nest deeper than the reader follows.
    TooDeep,
}

/// A protocol value.
#[derive(Debug, PartialEq, Eq)]
pub enum RespValue {
    /// A signed 64-bit integer.
    Int(i64),
    /// The absent string, distinct from an empty one.
    NilBulk,
    /// The absent array, distinct from an empty one.
    NilArray,
    /// A byte string: a length-prefixed bulk string, or a status line.
    Bulk(Vec<u8>),
    /// Values in order, possibly nested.
    Array(Vec<RespValue>),
    /// An error that the server reported.
    Error(Vec<u8>),
}

impl RespValue {
    /// The model of a value: the same tree, with sequences for vectors.
    pub open spec fn model(&self) -> Value
        decreases self,
    {
        match self {
            RespValue::Int(n) => Value::Int(*n),
            RespValue::NilBulk => Value::NilBulk,
            RespValue::NilArray => Value::NilArray,
            RespValue::Bulk(b) => Value::Bulk(b@),
            RespValue::Array(items) => Value::Array(
                Seq::new(
                    items@.len(),
                    |i: int|
                        if 0 <= i < items@.len() {
                            items@[i].model()
                        } else {
                            Value::NilArray
                        },
                ),
            ),
            RespValue::Error(b) => Value::Error(b@),
        }
    }
}

impl View for RespValue {
    type V = Value;

    open spec fn view(&self) -> Value {
        self.model()
    }
}

impl RespValue {
    /// The model of an array holds the models of its elements, in order.
    pub proof fn lemma_array_view(&self)
        requires
            self is Array,
        ensures
            self@ is Array,
            self@->Array_0.len() == self->Array_0@.len(),
            forall|i: int|
                0 <= i < self->Array_0@.len() ==> #[trigger] self@->Array_0[i]
                    == self->Array_0@[i]@,
    {
    }
}

/// The characters of a run of ASCII bytes.
pub open spec fn ascii_chars(b: Seq<u8>) -> Seq<char> {
    b.map_values(|x: u8| x as char)
}

/// Texts one after another, with `, ` between each two.
pub open spec fn joined(parts: Seq<Seq<char>>) -> Seq<char>
    decreases parts.len(),
{
    if parts.len() == 0 {
        Seq::empty()
    } else if parts.len() == 1 {
        parts[0]
    } else {
        joined(parts.drop_last()) + ", "@ + parts.last()
    }
}

/// How a value reads to people: its variant, then its contents.
pub open spec fn debug_text(v: Value) -> Seq<char>
    decreases v,
{
    match v {
        Value::Int(n) => "Int("@ + ascii_chars(int_text(n as int)) + ")"@,
        Value::NilBulk => "NilBulk"@,
        Value::NilArray => "NilArray"@,
        Value::Bulk(b) => "Bulk('"@ + lossy_text(b) + "')"@,
        Value::Error(b) => "Error('"@ + lossy_text(b) + "')"@,
        Value::Array(items) => "Array(["@ + joined(debug_texts(items)) + "])"@,
    }
}

/// How each value of a sequence reads to people.
pub open spec fn debug_texts(items: Seq<Value>) -> Seq<Seq<char>>
    decreases items,
{
    Seq::new(
        items.len(),
        |i: int|
            if 0 <= i < items.len() {
                debug_text(items[i])
            } else {
                Seq::empty()
            },
    )
}

impl RespValue {
    /// Renders the value for people to read.
    pub fn to_debug_string(&self) -> (r: String)
        ensures
            r@ == debug_text(self@),
        decreases self,
    {
        match self {
            RespValue::Int(n) => {
                let mut digits: Vec<u8> = Vec::new();
                push_int_text(&mut digits, *n);
                assert(digits@ =~= int_text(*n as int));
                let mut s = String::from_str("Int(");
                let ghost start = s@;
                let mut i: usize = 0;
                while i < digits.len()
                    invariant
                        0 <= i <= digits@.len(),
                        s@ == start + ascii_chars(digits@.take(i as int)),
                    decreases digits@.len() - i,
                {
                    push_char(&mut s, digits[i] as char);
                    assert(ascii_chars(digits@.take(i + 1)) =~= ascii_chars(
                        digits@.take(i as int),
                    ).push(digits@[i as int] as char));
                    i += 1;
                }
                assert(digits@.take(digits@.len() as int) =~= digits@);
                s.append(")");
                s
            },
            RespValue::NilBulk => String::from_str("NilBulk"),
            RespValue::NilArray => String::from_str("NilArray"),
            RespValue::Bulk(b) => {
                let mut s = String::from_str("Bulk('");
                s.append(lossy_string(b.as_slice()).as_str());
                s.append("')");
                s
            },
            RespValue::Error(b) => {
                let mut s = String::from_str("Error('");
                s.append(lossy_string(b.as_slice()).as_str());
                s.append("')");
                s
            },
            RespValue::Array(items) => {
                let ghost vals = self@->Array_0;
                let ghost parts = debug_texts(vals);
                proof {
                    self.lemma_array_view();
                }
                let mut s = String::from_str("Array([");
                let ghost start = s@;
                let mut i: usize = 0;
                assert(joined(parts.take(0)) =~= Seq::<char>::empty());
                while i < items.len()
                    invariant
                        0 <= i <= items@.len(),
                        vals.len() == items@.len(),
                        parts == debug_texts(vals),
                        forall|j: int| 0 <= j < items@.len() ==> #[trigger] vals[j] == items@[j]@,
                        *self == RespValue::Array(*items),
                        s@ == start + joined(parts.take(i as int)),
                    decreases items@.len() - i,
                {
                    if i > 0 {
                        s.append(", ");
                    }
                    proof {
                        assert(decreases_to!(*self => self->Array_0));
                        assert(decreases_to!(*items => items@));
                        assert(decreases_to!(items@ => items@[i as int]));
                    }
                    let part = items[i].to_debug_string();
                    s.append(part.as_str());
                    proof {
                        let t = parts.take(i + 1);
                        assert(t.drop_last() =~= parts.take(i as int));
                        assert(t.last() == parts[i as int]);
                        if i == 0 {
                            assert(t.len() == 1);
                        }
                    }
                    i += 1;
                }
                assert(parts.take(items@.len() as int) =~= parts);
                s.append("])");
                s
            },
        }
    }
}

/// A failure of the protocol layer.
#[derive(Debug, PartialEq, Eq)]
pub enum RespError {
    /// The transport failed to carry bytes.
    IoError(String),
    /// The bytes received are not a well-formed value.
    ParseFailed(String),
    /// The credential handshake did not succeed.
    AuthFailed(String),
}

impl RespError {
    /// How the failure reads: its kind, then its particulars.
    pub open spec fn text(&self) -> Seq<char> {
        match self {
            RespError::IoError(m) => "io err: "@ + m@,
            RespError::ParseFailed(m) => "parse failed: "@ + m@,
            RespError::AuthFailed(m) => "failed on auth: "@ + m@,
        }
    }

    /// Renders the failure as text.
    pub fn to_string(&self) -> (r: String)
        ensures
            r@ == self.text(),
    {
        let (mut s, m) = match self {
            RespError::IoError(m) => (String::from_str("io err: "), m),
            RespError::ParseFailed(m) => (String::from_str("parse failed: "), m),
            RespError::AuthFailed(m) => (String::from_str("failed on auth: "), m),
        };
        s.append(m.as_str());
        s
    }
}

/// The text that `String::from_utf8_lossy` makes of a byte sequence.
pub uninterp spec fn lossy_text(b: Seq<u8>) -> Seq<char>;

/// Relies on `String::from_utf8_lossy`: the bytes read as UTF-8, each
/// malformed part replaced; the text depends on the bytes alone.
#[verifier::external_body]
pub(crate) fn lossy_string(b: &[u8]) -> (r: String)
    ensures
        r@ == lossy_text(b@),
{
    String::from_utf8_lossy(b).into_owned()
}

/// The failures of reading are those of the protocol layer.
pub type RespReadError = RespError;

/// What a failure to read a value reports.
pub open spec fn fault_text(f: Fault) -> Seq<char> {
    match f {
        Fault::EndOfInput => "unexpected end of input"@,
        Fault::NoCrlf => "line not ends with CRLF"@,
        Fault::EmptyLine => "empty line"@,
        Fault::MalformedInteger => "malformed integer"@,
        Fault::InvalidInteger => "parse int failed"@,
        Fault::MalformedLength => "malformed length"@,
        Fault::BadBulkTrailer => "bad bulk string format"@,
        Fault::UnexpectedToken(b) => "unexpected token: "@.push(b as char),
        Fault::TooDeep => "nesting too deep"@,
    }
}

/// Relies on `String::push`: the character is appended to the string.
#[verifier::external_body]
fn push_char(s: &mut String, c: char)
    ensures
        final(s)@ == old(s)@.push(c),
{
    s.push(c)
}

/// The text that reports a fault.
pub fn fault_message(f: Fault) -> (r: String)
    ensures
        r@ == fault_text(f),
{
    match f {
        Fault::EndOfInput => String::from_str("unexpected end of input"),
        Fault::NoCrlf => String::from_str("line not ends with CRLF"),
        Fault::EmptyLine => String::from_str("empty line"),
        Fault::MalformedInteger => String::from_str("malformed integer"),
        Fault::InvalidInteger => String::from_str("parse int failed"),
        Fault::MalformedLength => String::from_str("malformed length"),
        Fault::BadBulkTrailer => String::from_str("bad bulk string format"),
        Fault::TooDeep => String::from_str("nesting too deep"),
        Fault::UnexpectedToken(b) => {
            let mut s = String::from_str("unexpected token: ");
            push_char(&mut s, b as char);
            s
        },
    }
}

} // verus!
