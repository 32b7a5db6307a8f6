//! Transports: what a request is sent and answered through.
//!
//! A `Socket` can connect, send bytes, read one line and read all the rest.
//! The engine is written against this trait alone, so a plain stream, an
//! encrypted one and a scripted stand-in all serve.
//!
//! Beside each operation the trait names a relation: what one call of the
//! operation may do to the transport and answer. The relation of an
//! implementation that says nothing about itself admits everything; an
//! implementation that is verified states its own and proves it. Contracts
//! that speak of a transport speak through these relations, and so hold of
//! every implementation alike.

use crate::error::{describe, failure_text, TransportError};
use crate::text::{digits_of, string_of, write_u16};
use vstd::prelude::*;
use vstd::utf8::{decode_utf8, encode_utf8_decode_utf8, valid_utf8};

verus! {

/// The transport of one request.
pub trait Socket: Sized {
    /// What a call of `connect` with `host` and `port` may do: it takes the
    /// transport from `before` to `after` and answers `answer`.
    open spec fn connects(
        before: Self,
        host: Seq<char>,
        port: u16,
        after: Self,
        answer: Result<(), TransportError>,
    ) -> bool {
        true
    }

    /// What a call of `send` with `data` may do.
    open spec fn sends(
        before: Self,
        data: Seq<u8>,
        after: Self,
        answer: Result<(), TransportError>,
    ) -> bool {
        true
    }

    /// What a call of `read_line` may do.
    open spec fn reads_line(
        before: Self,
        after: Self,
        answer: Result<String, TransportError>,
    ) -> bool {
        true
    }

    /// What a call of `read_to_string` may do.
    open spec fn reads_rest(
        before: Self,
        after: Self,
        answer: Result<String, TransportError>,
    ) -> bool {
        true
    }

    /// Establishes the connection to `host` at `port`.
    fn connect(&mut self, host: &str, port: u16) -> (answer: Result<(), TransportError>)
        ensures
            Self::connects(*old(self), host@, port, *final(self), answer),
    ;

    /// Writes all of `data`; success means that nothing was left unwritten.
    fn send(&mut self, data: &[u8]) -> (answer: Result<(), TransportError>)
        ensures
            Self::sends(*old(self), data@, *final(self), answer),
    ;

    /// Reads up to and including the next line feed. Where the stream ends
    /// first, what was read is the line, unless nothing was read at all:
    /// that is `EndOfStream`.
    fn read_line(&mut self) -> (answer: Result<String, TransportError>)
        ensures
            Self::reads_line(*old(self), *final(self), answer),
    ;

    /// Reads all that is left until the stream ends; that the stream ends
    /// is no failure here.
    fn read_to_string(&mut self) -> (answer: Result<String, TransportError>)
        ensures
            Self::reads_rest(*old(self), *final(self), answer),
    ;
}

/// The address of `port` at `host`: the host, a colon, and the port in
/// decimal digits.
pub open spec fn address_of(host: Seq<char>, port: u16) -> Seq<char> {
    host + ":"@ + digits_of(port as nat)
}

/// The address of `port` at `host`.
pub fn address(host: &str, port: u16) -> (address: String)
    ensures
        address@ == address_of(host@, port),
{
    let mut address = String::from_str(host);
    address.append(":");
    address.append(string_of(write_u16(port).as_slice()).as_str());
    address
}

/// A stream of bytes that is already open: what a connection offers once it
/// stands. Its failures are the words of whatever lies below.
///
/// As with `Socket`, each operation has a relation that names what one call
/// of it may do.
pub trait ByteStream: Sized {
    /// What a call of `write_all` with `data` may do.
    open spec fn writes(before: Self, data: Seq<u8>, after: Self, answer: Result<(), String>) -> bool {
        true
    }

    /// What a call of `read_byte` may do.
    open spec fn reads_byte(before: Self, after: Self, answer: Result<Option<u8>, String>) -> bool {
        true
    }

    /// Writes all of `data`.
    fn write_all(&mut self, data: &[u8]) -> (answer: Result<(), String>)
        ensures
            Self::writes(*old(self), data@, *final(self), answer),
    ;

    /// Reads the next byte; there is none where the stream has ended.
    fn read_byte(&mut self) -> (answer: Result<Option<u8>, String>)
        ensures
            Self::reads_byte(*old(self), *final(self), answer),
    ;
}

/// The line feed, which ends a line.
pub open spec fn line_feed() -> u8 {
    10
}

/// The text that `bytes` spell where each byte stands for the character with
/// its number.
pub open spec fn text_of_bytes(bytes: Seq<u8>) -> Seq<char> {
    Seq::new(bytes.len(), |i: int| bytes[i] as char)
}

/// Whether an answer of `read_byte` is a byte.
pub open spec fn is_byte(answer: Result<Option<u8>, String>) -> bool {
    answer matches Ok(Some(_))
}

/// Whether an answer of `read_byte` leaves the line unfinished: it is a byte,
/// and not the line feed.
pub open spec fn continues_line(answer: Result<Option<u8>, String>) -> bool {
    answer matches Ok(Some(byte)) && byte != line_feed()
}

/// Whether `failure` is a failure to read that says what failed and why.
pub open spec fn read_failed(
    failure: Result<String, TransportError>,
    what: Seq<char>,
    why: Seq<char>,
) -> bool {
    failure matches Err(TransportError::ReadFailed(words)) && words@ == failure_text(what, why)
}

/// What a stream did in a run of reads: the state that each call of
/// `read_byte` left it in, and the answer that each call gave.
pub struct Reads<S> {
    pub states: Seq<S>,
    pub answers: Seq<Result<Option<u8>, String>>,
}

impl<S: ByteStream> Reads<S> {
    /// The stream before the `i`-th call of `read_byte`.
    pub open spec fn state_before(self, start: S, i: int) -> S {
        if i == 0 {
            start
        } else {
            self.states[i - 1]
        }
    }

    /// The bytes that the first `count` calls gave.
    pub open spec fn bytes(self, count: int) -> Seq<u8> {
        Seq::new(count as nat, |i: int| self.answers[i]->Ok_0->Some_0)
    }

    /// Whether each call began where the call before it ended, the first on
    /// `start` and the last leaving `end`, and each did what the stream's
    /// `read_byte` may do.
    pub open spec fn ran(self, start: S, end: S) -> bool {
        &&& self.states.len() == self.answers.len()
        &&& forall|i: int|
            0 <= i < self.answers.len() ==> S::reads_byte(
                self.state_before(start, i),
                self.states[i],
                #[trigger] self.answers[i],
            )
        &&& end == self.state_before(start, self.answers.len() as int)
    }

    /// Whether this is the record of reading one line, with the result
    /// `answer`. Bytes are read up to and including the first line feed.
    /// Where the stream ends first, the bytes read are the line; where
    /// there are none, that is `EndOfStream`.
    pub open spec fn explains_line(
        self,
        start: S,
        end: S,
        answer: Result<String, TransportError>,
    ) -> bool {
        let last = self.answers.len() - 1;
        &&& last >= 0
        &&& self.ran(start, end)
        &&& forall|i: int| 0 <= i < last ==> continues_line(#[trigger] self.answers[i])
        &&& match self.answers[last] {
            Err(why) => read_failed(answer, "Failed to read line"@, why@),
            Ok(None) => if last == 0 {
                answer == Err::<String, TransportError>(TransportError::EndOfStream)
            } else {
                answer matches Ok(line) && line@ == text_of_bytes(self.bytes(last))
            },
            Ok(Some(byte)) => {
                &&& byte == line_feed()
                &&& answer matches Ok(line) && line@ == text_of_bytes(self.bytes(last + 1))
            },
        }
    }

    /// Whether this is the record of reading all the rest, with the result
    /// `answer`. Bytes are read until the stream ends, and that it ends is
    /// no failure: the bytes read are the text, in UTF-8. That they are no
    /// UTF-8 is a failure, and so is a failure of the stream.
    pub open spec fn explains_rest(
        self,
        start: S,
        end: S,
        answer: Result<String, TransportError>,
    ) -> bool {
        let last = self.answers.len() - 1;
        &&& last >= 0
        &&& self.ran(start, end)
        &&& forall|i: int| 0 <= i < last ==> is_byte(#[trigger] self.answers[i])
        &&& match self.answers[last] {
            Err(why) => read_failed(answer, "Failed to read to string"@, why@),
            Ok(None) => if valid_utf8(self.bytes(last)) {
                answer matches Ok(text) && text@ == decode_utf8(self.bytes(last))
            } else {
                read_failed(
                    answer,
                    "Failed to read to string"@,
                    "stream did not contain valid UTF-8"@,
                )
            },
            Ok(Some(_)) => false,
        }
    }
}

/// The end of the stream ends the rest and is no failure: where the bytes
/// read up to it are UTF-8, they are the text, be they none at all.
pub proof fn end_of_stream_ends_the_rest<S: ByteStream>(
    reads: Reads<S>,
    start: S,
    end: S,
    answer: Result<String, TransportError>,
)
    requires
        reads.explains_rest(start, end, answer),
        reads.answers.last() is Ok,
    ensures
        reads.answers.last() == Ok::<Option<u8>, String>(None),
        valid_utf8(reads.bytes(reads.answers.len() - 1)) ==> answer is Ok && answer->Ok_0@
            == decode_utf8(reads.bytes(reads.answers.len() - 1)),
        reads.answers.len() == 1 ==> answer is Ok && answer->Ok_0@ == Seq::<char>::empty(),
{
    if reads.answers.len() == 1 {
        assert(reads.bytes(0) == Seq::<u8>::empty());
        assert(decode_utf8(Seq::<u8>::empty()) == Seq::<char>::empty()) by {
            reveal_with_fuel(decode_utf8, 1);
        }
        assert(valid_utf8(Seq::<u8>::empty())) by {
            reveal_with_fuel(valid_utf8, 1);
        }
    }
}

/// A line is never empty, and holds a line feed at its end or nowhere; the
/// end of the stream is a failure only where no byte came before it.
pub proof fn line_ends_at_the_first_line_feed<S: ByteStream>(
    reads: Reads<S>,
    start: S,
    end: S,
    answer: Result<String, TransportError>,
)
    requires
        reads.explains_line(start, end, answer),
    ensures
        answer matches Ok(line) ==> {
            &&& line@.len() >= 1
            &&& forall|i: int| 0 <= i < line@.len() - 1 ==> line@[i] != '\n'
        },
        answer == Err::<String, TransportError>(TransportError::EndOfStream) <==> reads.answers
            == seq![Ok::<Option<u8>, String>(None)],
{
    let last = reads.answers.len() - 1;
    if answer is Ok {
        let line = answer->Ok_0@;
        assert forall|i: int| 0 <= i < line.len() - 1 implies line[i] != '\n' by {
            assert(continues_line(reads.answers[i]));
            assert(line[i] == reads.answers[i]->Ok_0->Some_0 as char);
        }
    }
    if reads.answers == seq![Ok::<Option<u8>, String>(None)] {
        assert(reads.answers[0] == Ok::<Option<u8>, String>(None));
    }
    if answer == Err::<String, TransportError>(TransportError::EndOfStream) {
        assert(reads.answers =~= seq![Ok::<Option<u8>, String>(None)]);
    }
}

/// A transport over a stream that is already open.
#[derive(Debug)]
pub struct HttpSocket<S: ByteStream> {
    stream: S,
}

impl<S: ByteStream> HttpSocket<S> {
    /// The stream that this transport reads from and writes to.
    pub closed spec fn stream(self) -> S {
        self.stream
    }

    /// A transport over `stream`.
    pub fn new(stream: S) -> (socket: Self)
        ensures
            socket.stream() == stream,
    {
        HttpSocket { stream }
    }

    /// Gives the stream back.
    pub fn into_stream(self) -> (stream: S)
        ensures
            stream == self.stream(),
    {
        self.stream
    }

    /// Reads one more byte and records the call.
    fn next_byte(&mut self, Ghost(start): Ghost<S>, Ghost(reads): Ghost<Reads<S>>) -> (next: (
        Result<Option<u8>, String>,
        Ghost<Reads<S>>,
    ))
        requires
            reads.ran(start, old(self).stream),
        ensures
            next.1@.ran(start, final(self).stream),
            next.1@.answers == reads.answers.push(next.0),
            next.1@.states == reads.states.push(final(self).stream),
    {
        let answer = self.stream.read_byte();
        let ghost after = Reads::<S> {
            states: reads.states.push(self.stream),
            answers: reads.answers.push(answer),
        };
        proof {
            assert forall|i: int| 0 <= i < after.answers.len() implies S::reads_byte(
                after.state_before(start, i),
                after.states[i],
                #[trigger] after.answers[i],
            ) by {
                if i < reads.answers.len() {
                    assert(after.answers[i] == reads.answers[i]);
                    assert(after.state_before(start, i) == reads.state_before(start, i));
                }
            }
        }
        (answer, Ghost(after))
    }
}

impl<S: ByteStream> Socket for HttpSocket<S> {
    /// The stream is open already: connecting does nothing and succeeds.
    open spec fn connects(
        before: Self,
        host: Seq<char>,
        port: u16,
        after: Self,
        answer: Result<(), TransportError>,
    ) -> bool {
        after == before && answer is Ok
    }

    /// The bytes are written to the stream; a failure of the stream is a
    /// `SendFailed`.
    open spec fn sends(
        before: Self,
        data: Seq<u8>,
        after: Self,
        answer: Result<(), TransportError>,
    ) -> bool {
        exists|wrote: Result<(), String>|
            {
                &&& #[trigger] S::writes(before.stream(), data, after.stream(), wrote)
                &&& match wrote {
                    Ok(_) => answer is Ok,
                    Err(why) => answer matches Err(TransportError::SendFailed(words)) && words@
                        == failure_text("Failed to send data"@, why@),
                }
            }
    }

    /// One line is read from the stream, byte by byte.
    open spec fn reads_line(
        before: Self,
        after: Self,
        answer: Result<String, TransportError>,
    ) -> bool {
        exists|reads: Reads<S>| #[trigger]
            reads.explains_line(before.stream(), after.stream(), answer)
    }

    /// The rest is read from the stream, byte by byte.
    open spec fn reads_rest(
        before: Self,
        after: Self,
        answer: Result<String, TransportError>,
    ) -> bool {
        exists|reads: Reads<S>| #[trigger]
            reads.explains_rest(before.stream(), after.stream(), answer)
    }

    fn connect(&mut self, _host: &str, _port: u16) -> (answer: Result<(), TransportError>) {
        Ok(())
    }

    fn send(&mut self, data: &[u8]) -> (answer: Result<(), TransportError>) {
        let wrote = self.stream.write_all(data);
        let answer = match wrote {
            Ok(()) => Ok(()),
            Err(why) => Err(
                TransportError::SendFailed(describe("Failed to send data", why.as_str())),
            ),
        };
        proof {
            assert(S::writes(old(self).stream(), data@, self.stream(), wrote));
        }
        answer
    }

    fn read_line(&mut self) -> (answer: Result<String, TransportError>) {
        let ghost start = self.stream;
        let ghost mut reads = Reads::<S> { states: Seq::empty(), answers: Seq::empty() };
        // A vector holds no more than `usize::MAX` characters, which bounds
        // the loop.
        let mut line: Vec<char> = Vec::new();
        loop
            invariant
                start == old(self).stream(),
                reads.answers.len() == line@.len(),
                reads.ran(start, self.stream),
                forall|i: int|
                    0 <= i < reads.answers.len() ==> continues_line(#[trigger] reads.answers[i]),
                line@ == text_of_bytes(reads.bytes(reads.answers.len() as int)),
                line@.len() <= usize::MAX,
            decreases usize::MAX - line@.len(),
        {
            let ghost before = reads;
            let (next, Ghost(after)) = self.next_byte(Ghost(start), Ghost(reads));
            proof {
                reads = after;
                assert forall|i: int| 0 <= i < reads.answers.len() - 1 implies continues_line(
                    #[trigger] reads.answers[i],
                ) by {
                    assert(reads.answers[i] == before.answers[i]);
                }
                assert(reads.bytes(before.answers.len() as int) == before.bytes(
                    before.answers.len() as int,
                ));
            }
            match next {
                Err(why) => {
                    let answer = Err(
                        TransportError::ReadFailed(describe("Failed to read line", why.as_str())),
                    );
                    proof {
                        assert(reads.explains_line(old(self).stream(), self.stream(), answer));
                    }
                    return answer;
                },
                Ok(None) => {
                    let answer = if line.len() == 0 {
                        Err(TransportError::EndOfStream)
                    } else {
                        Ok(string_of(line.as_slice()))
                    };
                    proof {
                        assert(reads.explains_line(old(self).stream(), self.stream(), answer));
                    }
                    return answer;
                },
                Ok(Some(byte)) => {
                    line.push(byte as char);
                    assert(line.len() <= usize::MAX);
                    proof {
                        assert(line@ == text_of_bytes(reads.bytes(reads.answers.len() as int)));
                    }
                    if byte == 10 {
                        let answer = Ok(string_of(line.as_slice()));
                        proof {
                            assert(reads.explains_line(old(self).stream(), self.stream(), answer));
                        }
                        return answer;
                    }
                },
            }
        }
    }

    fn read_to_string(&mut self) -> (answer: Result<String, TransportError>) {
        let ghost start = self.stream;
        let ghost mut reads = Reads::<S> { states: Seq::empty(), answers: Seq::empty() };
        // A vector holds no more than `usize::MAX` bytes, which bounds the
        // loop.
        let mut bytes: Vec<u8> = Vec::new();
        loop
            invariant
                start == old(self).stream(),
                reads.answers.len() == bytes@.len(),
                reads.ran(start, self.stream),
                forall|i: int| 0 <= i < reads.answers.len() ==> is_byte(#[trigger] reads.answers[i]),
                bytes@ == reads.bytes(reads.answers.len() as int),
                bytes@.len() <= usize::MAX,
            decreases usize::MAX - bytes@.len(),
        {
            let ghost before = reads;
            let (next, Ghost(after)) = self.next_byte(Ghost(start), Ghost(reads));
            proof {
                reads = after;
                assert forall|i: int| 0 <= i < reads.answers.len() - 1 implies is_byte(
                    #[trigger] reads.answers[i],
                ) by {
                    assert(reads.answers[i] == before.answers[i]);
                }
                assert(reads.bytes(before.answers.len() as int) == before.bytes(
                    before.answers.len() as int,
                ));
            }
            match next {
                Err(why) => {
                    let answer = Err(
                        TransportError::ReadFailed(
                            describe("Failed to read to string", why.as_str()),
                        ),
                    );
                    proof {
                        assert(reads.explains_rest(old(self).stream(), self.stream(), answer));
                    }
                    return answer;
                },
                Ok(None) => {
                    let answer = match String::from_utf8(bytes) {
                        Ok(text) => {
                            proof {
                                encode_utf8_decode_utf8(text@);
                            }
                            Ok(text)
                        },
                        Err(_) => Err(
                            TransportError::ReadFailed(
                                describe(
                                    "Failed to read to string",
                                    "stream did not contain valid UTF-8",
                                ),
                            ),
                        ),
                    };
                    proof {
                        assert(reads.explains_rest(old(self).stream(), self.stream(), answer));
                    }
                    return answer;
                },
                Ok(Some(byte)) => {
                    bytes.push(byte);
                    assert(bytes.len() <= usize::MAX);
                    proof {
                        assert(bytes@ == reads.bytes(reads.answers.len() as int));
                    }
                },
            }
        }
    }
}

} // verus!
