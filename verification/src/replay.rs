//! A stream that needs no network: it replays bytes given in advance and
//! keeps what is written to it.
//!
//! Over such a stream nothing is left open. Each read gives the next byte
//! until none is left, so what a request reads, and what it makes of it, is
//! a function of the bytes alone: `answer_in`.

use crate::error::{
    failure_text, RequestError, RequestFailure, Stage, TransportError, TransportFailure,
};
use crate::request::{
    ends_headers, make_request_with_socket, model_of, port_of, request_text, requested, Exchange,
};
use crate::response::{
    blank_line, headers_of, status_of, HttpResponse, ResponseModel, StatusModel,
};
use crate::socket::{
    continues_line, is_byte, line_feed, text_of_bytes, ByteStream, HttpSocket, Reads, Socket,
};
use crate::text::{
    first_occurrence, lemma_first_occurrence_found, lemma_first_occurrence_is, occurs_at,
};
use crate::url::{Url, UrlModel};
use vstd::prelude::*;
use vstd::utf8::{decode_utf8, encode_utf8, valid_utf8};

verus! {

/// A stream that replays `incoming` and then has ended, and that keeps all
/// that is written to it. It never fails.
#[derive(Debug)]
pub struct Replay {
    incoming: Vec<u8>,
    position: usize,
    outgoing: Vec<u8>,
}

impl Replay {
    /// The bytes that are still to be read.
    pub closed spec fn unread(self) -> Seq<u8> {
        if self.position <= self.incoming@.len() {
            self.incoming@.skip(self.position as int)
        } else {
            Seq::empty()
        }
    }

    /// The bytes that were written, in order.
    pub closed spec fn written(self) -> Seq<u8> {
        self.outgoing@
    }

    /// A stream that will replay `incoming`.
    pub fn new(incoming: Vec<u8>) -> (stream: Replay)
        ensures
            stream.unread() == incoming@,
            stream.written() == Seq::<u8>::empty(),
    {
        Replay { incoming, position: 0, outgoing: Vec::new() }
    }

    /// The bytes that were written, in order.
    pub fn into_written(self) -> (bytes: Vec<u8>)
        ensures
            bytes@ == self.written(),
    {
        self.outgoing
    }
}

impl ByteStream for Replay {
    /// The bytes are kept, after those written before.
    open spec fn writes(before: Self, data: Seq<u8>, after: Self, answer: Result<(), String>) -> bool {
        &&& answer is Ok
        &&& after.written() == before.written() + data
        &&& after.unread() == before.unread()
    }

    /// The next unread byte is read, if there is one.
    open spec fn reads_byte(before: Self, after: Self, answer: Result<Option<u8>, String>) -> bool {
        &&& after.written() == before.written()
        &&& if before.unread().len() == 0 {
            &&& answer == Ok::<Option<u8>, String>(None)
            &&& after.unread() == before.unread()
        } else {
            &&& answer == Ok::<Option<u8>, String>(Some(before.unread()[0]))
            &&& after.unread() == before.unread().drop_first()
        }
    }

    fn write_all(&mut self, data: &[u8]) -> (answer: Result<(), String>) {
        let mut i: usize = 0;
        while i < data.len()
            invariant
                i <= data.len(),
                self.outgoing@ == old(self).outgoing@ + data@.take(i as int),
                self.incoming == old(self).incoming,
                self.position == old(self).position,
            decreases data.len() - i,
        {
            self.outgoing.push(data[i]);
            i = i + 1;
        }
        proof {
            assert(data@.take(data@.len() as int) == data@);
        }
        Ok(())
    }

    fn read_byte(&mut self) -> (answer: Result<Option<u8>, String>) {
        if self.position < self.incoming.len() {
            let byte = self.incoming[self.position];
            self.position = self.position + 1;
            proof {
                assert(old(self).unread().drop_first() == self.unread());
            }
            Ok(Some(byte))
        } else {
            Ok(None)
        }
    }
}

/// What `read_line` and `read_to_string` answer, as mathematical text.
pub open spec fn text_view(
    answer: Result<String, TransportError>,
) -> Result<Seq<char>, TransportFailure> {
    match answer {
        Ok(text) => Ok(text@),
        Err(error) => Err(error@),
    }
}

/// The line feed as a pattern of one byte.
pub open spec fn line_feed_alone() -> Seq<u8> {
    seq![line_feed()]
}

/// The length of the first line in `unread`: it ends with the first line
/// feed, or where `unread` ends.
pub open spec fn line_length(unread: Seq<u8>) -> int {
    match first_occurrence(unread, line_feed_alone()) {
        Some(at) => at + 1,
        None => unread.len() as int,
    }
}

/// What reading a line from `unread` gives.
pub open spec fn line_in(unread: Seq<u8>) -> Result<Seq<char>, TransportFailure> {
    if unread.len() == 0 {
        Err(TransportFailure::EndOfStream)
    } else {
        Ok(text_of_bytes(unread.take(line_length(unread))))
    }
}

/// What reading a line from `unread` leaves unread.
pub open spec fn after_line(unread: Seq<u8>) -> Seq<u8> {
    unread.skip(line_length(unread))
}

/// What reading all of `unread` gives.
pub open spec fn rest_in(unread: Seq<u8>) -> Result<Seq<char>, TransportFailure> {
    if valid_utf8(unread) {
        Ok(decode_utf8(unread))
    } else {
        Err(
            TransportFailure::ReadFailed(
                failure_text("Failed to read to string"@, "stream did not contain valid UTF-8"@),
            ),
        )
    }
}

/// A line is at least one byte long, unless nothing is unread, and no longer
/// than what is unread.
pub proof fn line_length_is_in_bounds(unread: Seq<u8>)
    ensures
        0 <= line_length(unread) <= unread.len(),
        unread.len() > 0 ==> line_length(unread) >= 1,
{
    if first_occurrence(unread, line_feed_alone()) is Some {
        lemma_first_occurrence_found(unread, line_feed_alone());
    }
}

/// As long as bytes are read, they are the unread bytes in order.
proof fn lemma_replayed_bytes(reads: Reads<Replay>, start: Replay, end: Replay, count: int)
    requires
        reads.ran(start, end),
        0 <= count <= reads.answers.len(),
        forall|i: int| 0 <= i < count ==> is_byte(#[trigger] reads.answers[i]),
    ensures
        count <= start.unread().len(),
        reads.state_before(start, count).unread() == start.unread().skip(count),
        reads.state_before(start, count).written() == start.written(),
        forall|i: int|
            0 <= i < count ==> #[trigger] reads.answers[i] == Ok::<Option<u8>, String>(
                Some(start.unread()[i]),
            ),
        reads.bytes(count) == start.unread().take(count),
    decreases count,
{
    if count > 0 {
        lemma_replayed_bytes(reads, start, end, count - 1);
        let before = reads.state_before(start, count - 1);
        assert(is_byte(reads.answers[count - 1]));
        assert(before.unread().len() > 0);
        assert(before.unread().drop_first() == start.unread().skip(count));
        assert(before.unread()[0] == start.unread()[count - 1]);
        assert(reads.state_before(start, count) == reads.states[count - 1]);
    }
    assert(reads.bytes(count) == start.unread().take(count));
}

/// The last read of a run, after reads that all gave bytes.
proof fn lemma_replayed_last(reads: Reads<Replay>, start: Replay, end: Replay)
    requires
        reads.ran(start, end),
        reads.answers.len() >= 1,
        forall|i: int| 0 <= i < reads.answers.len() - 1 ==> is_byte(#[trigger] reads.answers[i]),
    ensures
        ({
            let last = reads.answers.len() - 1;
            let unread = start.unread();
            &&& last <= unread.len()
            &&& end.written() == start.written()
            &&& reads.bytes(last) == unread.take(last)
            &&& forall|i: int|
                0 <= i < last ==> #[trigger] reads.answers[i] == Ok::<Option<u8>, String>(
                    Some(unread[i]),
                )
            &&& if last == unread.len() {
                &&& reads.answers[last] == Ok::<Option<u8>, String>(None)
                &&& end.unread() == Seq::<u8>::empty()
            } else {
                &&& reads.answers[last] == Ok::<Option<u8>, String>(Some(unread[last]))
                &&& end.unread() == unread.skip(last + 1)
                &&& reads.bytes(last + 1) == unread.take(last + 1)
            }
        }),
{
    let last = reads.answers.len() - 1;
    let unread = start.unread();
    lemma_replayed_bytes(reads, start, end, last);
    let before = reads.state_before(start, last);
    assert(<Replay as ByteStream>::reads_byte(before, reads.states[last], reads.answers[last]));
    assert(end == reads.states[last]);
    if last < unread.len() {
        assert(before.unread().drop_first() == unread.skip(last + 1));
        assert(before.unread()[0] == unread[last]);
        assert(reads.bytes(last + 1) == unread.take(last + 1));
    } else {
        assert(before.unread() == Seq::<u8>::empty());
    }
}

impl HttpSocket<Replay> {
    /// Connecting changes nothing and succeeds.
    pub proof fn replay_connects(
        before: Self,
        host: Seq<char>,
        port: u16,
        after: Self,
        answer: Result<(), TransportError>,
    )
        requires
            <Self as Socket>::connects(before, host, port, after, answer),
        ensures
            answer is Ok,
            after.stream().unread() == before.stream().unread(),
            after.stream().written() == before.stream().written(),
    {
    }

    /// Sending succeeds and adds the bytes to what is written.
    pub proof fn replay_sends(
        before: Self,
        data: Seq<u8>,
        after: Self,
        answer: Result<(), TransportError>,
    )
        requires
            <Self as Socket>::sends(before, data, after, answer),
        ensures
            answer is Ok,
            after.stream().unread() == before.stream().unread(),
            after.stream().written() == before.stream().written() + data,
    {
    }

    /// Reading a line gives the first line of what is unread and leaves
    /// the rest; it fails where nothing is unread, and only there.
    pub proof fn replay_reads_line(
        before: Self,
        after: Self,
        answer: Result<String, TransportError>,
    )
        requires
            <Self as Socket>::reads_line(before, after, answer),
        ensures
            text_view(answer) == line_in(before.stream().unread()),
            after.stream().unread() == after_line(before.stream().unread()),
            after.stream().written() == before.stream().written(),
    {
        let reads = choose|reads: Reads<Replay>| #[trigger]
            reads.explains_line(before.stream(), after.stream(), answer);
        let unread = before.stream().unread();
        let last = reads.answers.len() - 1;
        assert forall|i: int| 0 <= i < last implies is_byte(#[trigger] reads.answers[i]) by {
            assert(continues_line(reads.answers[i]));
        }
        lemma_replayed_last(reads, before.stream(), after.stream());
        assert forall|earlier: int| 0 <= earlier < last implies !occurs_at(
            unread,
            line_feed_alone(),
            earlier,
        ) by {
            assert(continues_line(reads.answers[earlier]));
            if occurs_at(unread, line_feed_alone(), earlier) {
                assert(unread.subrange(earlier, earlier + 1)[0] == line_feed());
            }
        }
        if last == unread.len() {
            assert forall|at: int| !occurs_at(unread, line_feed_alone(), at) by {
                if occurs_at(unread, line_feed_alone(), at) {
                    assert(unread.subrange(at, at + 1)[0] == line_feed());
                }
            }
            assert(unread.take(last) == unread);
            assert(unread.skip(last) == Seq::<u8>::empty());
        } else {
            assert(unread.subrange(last, last + 1) == line_feed_alone());
            lemma_first_occurrence_is(unread, line_feed_alone(), last);
        }
    }

    /// Reading the rest gives all that is unread, read as UTF-8, and leaves
    /// nothing.
    pub proof fn replay_reads_rest(
        before: Self,
        after: Self,
        answer: Result<String, TransportError>,
    )
        requires
            <Self as Socket>::reads_rest(before, after, answer),
        ensures
            text_view(answer) == rest_in(before.stream().unread()),
            after.stream().unread() == Seq::<u8>::empty(),
            after.stream().written() == before.stream().written(),
    {
        let reads = choose|reads: Reads<Replay>| #[trigger]
            reads.explains_rest(before.stream(), after.stream(), answer);
        let unread = before.stream().unread();
        let last = reads.answers.len() - 1;
        lemma_replayed_last(reads, before.stream(), after.stream());
        assert(unread.take(last) == unread);
    }
}

/// What a result holds, as mathematical text.
pub open spec fn result_view(
    result: Result<ResponseModel, RequestError>,
) -> Result<ResponseModel, RequestFailure> {
    match result {
        Ok(response) => Ok(response),
        Err(error) => Err(error@),
    }
}

/// What a request makes of an answer that arrives as `incoming` and ends
/// there: a status line, header lines up to a blank line, and a body that
/// is all the rest.
pub open spec fn answer_in(incoming: Seq<u8>) -> Result<ResponseModel, RequestFailure> {
    match line_in(incoming) {
        Err(failure) => Err(RequestFailure::Transport { stage: Stage::Status, failure }),
        Ok(line) => match status_of(line) {
            Err(error) => Err(error@),
            Ok(status) => headers_and_body_in(status, Seq::empty(), after_line(incoming)),
        },
    }
}

/// The same, once the status line is read and the header lines `lines`
/// after it, with `unread` still to come.
pub open spec fn headers_and_body_in(
    status: StatusModel,
    lines: Seq<Seq<char>>,
    unread: Seq<u8>,
) -> Result<ResponseModel, RequestFailure>
    decreases unread.len(),
{
    match line_in(unread) {
        Err(failure) => Err(RequestFailure::Transport { stage: Stage::Headers, failure }),
        Ok(line) => {
            if line == blank_line() {
                body_in(status, lines, after_line(unread))
            } else {
                proof {
                    line_length_is_in_bounds(unread);
                }
                headers_and_body_in(status, lines.push(line), after_line(unread))
            }
        },
    }
}

/// The same, once the blank line is read: all that is unread is the body.
pub open spec fn body_in(
    status: StatusModel,
    lines: Seq<Seq<char>>,
    unread: Seq<u8>,
) -> Result<ResponseModel, RequestFailure> {
    match rest_in(unread) {
        Err(failure) => Err(RequestFailure::Transport { stage: Stage::Body, failure }),
        Ok(body) => Ok(
            ResponseModel {
                version: status.version,
                status: status.status,
                explanation: status.explanation,
                headers: headers_of(lines),
                body,
            },
        ),
    }
}

/// An answer that ends before the blank line is no response: where nothing
/// is unread while headers are still read, the request fails with
/// `EndOfStream`, however many header lines came before.
pub proof fn answer_without_blank_line_fails(status: StatusModel, lines: Seq<Seq<char>>)
    ensures
        headers_and_body_in(status, lines, Seq::empty()) == Err::<ResponseModel, RequestFailure>(
            RequestFailure::Transport {
                stage: Stage::Headers,
                failure: TransportFailure::EndOfStream,
            },
        ),
{
}

/// An answer that ends right after the blank line is a response with an
/// empty body: that the stream ends is how a body ends, and no header has
/// to announce it.
pub proof fn answer_without_body_has_empty_body(status: StatusModel, lines: Seq<Seq<char>>)
    ensures
        body_in(status, lines, Seq::empty()) == Ok::<ResponseModel, RequestFailure>(
            ResponseModel {
                version: status.version,
                status: status.status,
                explanation: status.explanation,
                headers: headers_of(lines),
                body: Seq::empty(),
            },
        ),
{
    assert(valid_utf8(Seq::<u8>::empty())) by {
        reveal_with_fuel(valid_utf8, 1);
    }
    assert(decode_utf8(Seq::<u8>::empty()) == Seq::<char>::empty()) by {
        reveal_with_fuel(decode_utf8, 1);
    }
}

/// The texts of the header lines that an exchange read before its `count`-th
/// line.
pub open spec fn header_lines_before(
    exchange: Exchange<HttpSocket<Replay>>,
    count: int,
) -> Seq<Seq<char>> {
    Seq::new((count - 1) as nat, |i: int| exchange.lines[i + 1]->Ok_0@)
}

/// Reading header lines one by one comes to what `headers_and_body_in` says.
proof fn lemma_replayed_headers(
    exchange: Exchange<HttpSocket<Replay>>,
    status: StatusModel,
    count: int,
)
    requires
        exchange.lines_were_read(),
        1 <= count <= exchange.lines.len() - 1,
        forall|i: int|
            1 <= i < exchange.lines.len() - 1 ==> !ends_headers(#[trigger] exchange.lines[i]),
    ensures
        headers_and_body_in(status, Seq::empty(), exchange.state_before(1).stream().unread())
            == headers_and_body_in(
            status,
            header_lines_before(exchange, count),
            exchange.state_before(count).stream().unread(),
        ),
        exchange.state_before(count).stream().written() == exchange.state_before(
            1,
        ).stream().written(),
    decreases count,
{
    if count == 1 {
        assert(header_lines_before(exchange, 1) == Seq::<Seq<char>>::empty());
    } else {
        lemma_replayed_headers(exchange, status, count - 1);
        let before = exchange.state_before(count - 1);
        let answer = exchange.lines[count - 1];
        assert(!ends_headers(answer));
        HttpSocket::<Replay>::replay_reads_line(before, exchange.states[count - 1], answer);
        assert(header_lines_before(exchange, count) == header_lines_before(
            exchange,
            count - 1,
        ).push(answer->Ok_0@));
    }
}

/// Over a replay a request is a function of the bytes: it comes to what
/// `answer_in` makes of the unread bytes, and it writes the request and
/// nothing else.
pub proof fn replayed_request(
    url: UrlModel,
    start: HttpSocket<Replay>,
    end: HttpSocket<Replay>,
    result: Result<ResponseModel, RequestError>,
)
    requires
        requested(url, start, end, result),
    ensures
        result_view(result) == answer_in(start.stream().unread()),
        end.stream().written() == start.stream().written() + encode_utf8(request_text(url)),
{
    let exchange = choose|exchange: Exchange<HttpSocket<Replay>>| #[trigger]
        exchange.explains(url, start, end, result);
    let incoming = start.stream().unread();
    HttpSocket::<Replay>::replay_connects(
        start,
        url.host,
        port_of(url.scheme),
        exchange.connected,
        exchange.connect,
    );
    HttpSocket::<Replay>::replay_sends(
        exchange.connected,
        encode_utf8(request_text(url)),
        exchange.sent,
        exchange.send,
    );
    assert(exchange.explains_reading(end, result));
    let first = exchange.lines[0];
    assert(exchange.state_before(0) == exchange.sent);
    HttpSocket::<Replay>::replay_reads_line(exchange.sent, exchange.states[0], first);
    if first is Ok && status_of(first->Ok_0@) is Ok {
        let status = status_of(first->Ok_0@)->Ok_0;
        let last = exchange.lines.len() - 1;
        assert(exchange.explains_headers(status, end, result));
        lemma_replayed_headers(exchange, status, last);
        assert(exchange.state_before(1) == exchange.states[0]);
        assert(exchange.state_before(last) == exchange.states[last - 1]);
        let answer = exchange.lines[last];
        HttpSocket::<Replay>::replay_reads_line(
            exchange.state_before(last),
            exchange.states[last],
            answer,
        );
        if answer is Ok {
            HttpSocket::<Replay>::replay_reads_rest(
                exchange.states[last],
                exchange.finished,
                exchange.rest,
            );
            assert(exchange.header_lines() == header_lines_before(exchange, last));
        }
    }
}

/// Performs one request for `url` against a peer that answers with
/// `incoming` and then closes the stream. Returns the bytes that were sent
/// and the result of the request.
pub fn replay(url: &Url, incoming: Vec<u8>) -> (outcome: (
    Vec<u8>,
    Result<HttpResponse, RequestError>,
))
    ensures
        outcome.0@ == encode_utf8(request_text(url@)),
        result_view(model_of(outcome.1)) == answer_in(incoming@),
{
    let mut socket = HttpSocket::new(Replay::new(incoming));
    let ghost start = socket;
    let result = make_request_with_socket(&mut socket, url);
    proof {
        replayed_request(url@, start, socket, model_of(result));
        assert(Seq::<u8>::empty() + encode_utf8(request_text(url@)) == encode_utf8(
            request_text(url@),
        ));
    }
    (socket.into_stream().into_written(), result)
}

} // verus!
