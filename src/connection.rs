//! One connection: a writer for commands and a reader for replies, driven
//! one request and one reply at a time.
use vstd::prelude::*;
use vstd::string::StringSliceAdditionalSpecFns;

use crate::model::{command_value, encode, parse};
use crate::resp::{reads_next, RespReader, RespWriter};
use crate::types::{lossy_string, lossy_text, Fault, RespError, RespValue, Value};

verus! {

/// The arguments of a command, as byte sequences.
pub open spec fn command_args(cmd: Seq<&[u8]>) -> Seq<Seq<u8>> {
    cmd.map_values(|b: &[u8]| b@)
}

/// The command that presents a password: the bytes of `AUTH`, then the
/// password.
pub open spec fn auth_command(password: Seq<u8>) -> Seq<Seq<u8>> {
    seq![seq![65u8, 85u8, 84u8, 72u8], password]
}

/// What the handshake makes of the reply to the password: a server error,
/// or a failure to get a reply, becomes an authentication failure.
pub open spec fn auth_result(
    reply: Result<RespValue, RespError>,
    r: Result<RespValue, RespError>,
) -> bool {
    match reply {
        Ok(v) => match v {
            RespValue::Error(b) => r matches Err(RespError::AuthFailed(m)) && m@ == lossy_text(b@),
            _ => r == Ok::<RespValue, RespError>(v),
        },
        Err(e) => r matches Err(RespError::AuthFailed(m)) && m@ == e.text(),
    }
}

/// Whether the reply at `pos` of `input` is a value other than a server
/// error.
pub open spec fn accepts(input: Seq<u8>, pos: int) -> bool {
    match parse(input, pos) {
        Ok((v, _)) => !(v is Error),
        Err(_) => false,
    }
}

/// A writer and a reader bound to the two halves of one transport.
pub struct GenericConnection {
    w: RespWriter,
    r: RespReader,
}

impl GenericConnection {
    /// The half that carries commands out.
    pub closed spec fn writer(&self) -> RespWriter {
        self.w
    }

    /// The half that carries replies in.
    pub closed spec fn reader(&self) -> RespReader {
        self.r
    }

    /// Binds a reader and a writer into a connection.
    pub fn new(r: RespReader, w: RespWriter) -> (c: Self)
        ensures
            c.reader() == r,
            c.writer() == w,
    {
        GenericConnection { w, r }
    }

    /// Writes a command and flushes it to the transport.
    pub fn send(&mut self, cmd: &[&[u8]]) -> (r: Result<(), RespError>)
        ensures
            r == Ok::<(), RespError>(()),
            final(self).writer().sent() == old(self).writer().sent() + old(self).writer().pending()
                + encode(command_value(command_args(cmd@))),
            final(self).writer().pending() == Seq::<u8>::empty(),
            final(self).reader() == old(self).reader(),
    {
        let _ = self.w.write_bulks(cmd);
        self.w.flush()
    }

    /// Reads one reply.
    pub fn receive(&mut self) -> (r: Result<RespValue, RespError>)
        ensures
            final(self).writer() == old(self).writer(),
            final(self).reader().input() == old(self).reader().input(),
            reads_next(
                old(self).reader().input(),
                old(self).reader().position(),
                r,
                final(self).reader().position(),
            ),
    {
        self.r.read()
    }

    /// Sends a command, then reads exactly one reply and returns it.
    pub fn execute(&mut self, cmd: &[&[u8]]) -> (r: Result<RespValue, RespError>)
        ensures
            final(self).writer().sent() == old(self).writer().sent() + old(self).writer().pending()
                + encode(command_value(command_args(cmd@))),
            final(self).writer().pending() == Seq::<u8>::empty(),
            final(self).reader().input() == old(self).reader().input(),
            reads_next(
                old(self).reader().input(),
                old(self).reader().position(),
                r,
                final(self).reader().position(),
            ),
    {
        let _ = self.send(cmd);
        self.receive()
    }

    /// Judges the reply to a password: the reply itself where the server
    /// accepted it, an authentication failure otherwise.
    pub fn auth_outcome(reply: Result<RespValue, RespError>) -> (r: Result<RespValue, RespError>)
        ensures
            auth_result(reply, r),
    {
        match reply {
            Ok(RespValue::Error(b)) => Err(RespError::AuthFailed(lossy_string(b.as_slice()))),
            Ok(v) => Ok(v),
            Err(e) => Err(RespError::AuthFailed(e.to_string())),
        }
    }

    /// Writes the command that presents a password and flushes it.
    pub fn send_auth(&mut self, password: &str) -> (r: Result<(), RespError>)
        ensures
            r == Ok::<(), RespError>(()),
            final(self).writer().sent() == old(self).writer().sent() + old(self).writer().pending()
                + encode(command_value(auth_command(password.spec_bytes()))),
            final(self).writer().pending() == Seq::<u8>::empty(),
            final(self).reader() == old(self).reader(),
    {
        // the bytes of `AUTH`
        let word: Vec<u8> = vec![65u8, 85u8, 84u8, 72u8];
        let cmd: Vec<&[u8]> = vec![word.as_slice(), password.as_bytes()];
        assert(command_args(cmd@) =~= auth_command(password.spec_bytes()));
        self.send(cmd.as_slice())
    }

    /// Takes the bytes flushed so far, for the transport to carry out.
    pub fn take_outgoing(&mut self) -> (r: Vec<u8>)
        ensures
            r@ == old(self).writer().sent(),
            final(self).writer().sent() == Seq::<u8>::empty(),
            final(self).writer().pending() == old(self).writer().pending(),
            final(self).reader() == old(self).reader(),
    {
        self.w.take_sent()
    }

    /// Hands the reader bytes that the transport has brought in.
    pub fn feed(&mut self, bytes: &[u8])
        ensures
            final(self).reader().input() == old(self).reader().input() + bytes@,
            final(self).reader().position() == old(self).reader().position(),
            final(self).writer() == old(self).writer(),
    {
        self.r.feed(bytes)
    }

    /// Whether the next reply is still incomplete in what has arrived.
    pub fn awaits_input(&self) -> (r: bool)
        ensures
            r == (parse(self.reader().input(), self.reader().position()) == Err::<
                (Value, int),
                Fault,
            >(Fault::EndOfInput)),
    {
        self.r.awaits_input()
    }

    /// Presents a password: executes `AUTH <password>` and judges the reply.
    pub fn auth(&mut self, password: &str) -> (r: Result<RespValue, RespError>)
        ensures
            final(self).writer().sent() == old(self).writer().sent() + old(self).writer().pending()
                + encode(command_value(auth_command(password.spec_bytes()))),
            final(self).writer().pending() == Seq::<u8>::empty(),
            final(self).reader().input() == old(self).reader().input(),
            exists|reply: Result<RespValue, RespError>|
                reads_next(
                    old(self).reader().input(),
                    old(self).reader().position(),
                    reply,
                    final(self).reader().position(),
                ) && auth_result(reply, r),
    {
        let _ = self.send_auth(password);
        let reply = self.receive();
        let ghost kept = reply;
        let r = Self::auth_outcome(reply);
        assert(auth_result(kept, r));
        r
    }

    /// Sets up a connection over a transport: when a password is given, the
    /// handshake runs first, and its failure means no connection.
    pub fn open(r: RespReader, w: RespWriter, password: Option<&str>) -> (c: Result<
        Self,
        RespError,
    >)
        ensures
            match password {
                None => c matches Ok(conn) && conn.reader() == r && conn.writer() == w,
                Some(pw) => match c {
                    Ok(conn) => accepts(r.input(), r.position()) && conn.writer().sent()
                        == w.sent() + w.pending() + encode(
                        command_value(auth_command(pw.spec_bytes())),
                    ) && conn.reader().input() == r.input(),
                    Err(e) => !accepts(r.input(), r.position()) && e is AuthFailed,
                },
            },
    {
        let mut conn = GenericConnection::new(r, w);
        match password {
            None => Ok(conn),
            Some(pw) => match conn.auth(pw) {
                Ok(_) => Ok(conn),
                Err(e) => Err(e),
            },
        }
    }
}

} // verus!
