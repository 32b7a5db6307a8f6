//! The engine: one request, one response.
//!
//! A request connects, sends one `GET`, and reads the status line, the
//! headers up to the blank line, and the body up to the end of the stream.
//! The first failure ends it. What the engine guarantees is stated over an
//! `Exchange`, the record of every call it made on the transport.

use crate::error::{RequestError, Stage, TransportError};
use crate::response::{
    blank_line, headers_of, is_blank_line, parse_headers, parse_status_line, status_of, texts,
    HttpResponse, ResponseModel, StatusModel,
};
use crate::socket::Socket;
use crate::url::{Scheme, Url, UrlModel};
use vstd::prelude::*;
use vstd::utf8::encode_utf8;

verus! {

/// The port that the transport of `scheme` connects to.
pub open spec fn port_of(scheme: Scheme) -> u16 {
    match scheme {
        Scheme::Http => 80,
        Scheme::Https => 443,
    }
}

/// The request for `url`, as text: a request line, a `Host` header and a
/// blank line.
pub open spec fn request_text(url: UrlModel) -> Seq<char> {
    "GET "@ + url.path + " HTTP/1.0\r\nHost: "@ + url.host + "\r\n\r\n"@
}

/// What a result holds, as mathematical text.
pub open spec fn model_of(
    result: Result<HttpResponse, RequestError>,
) -> Result<ResponseModel, RequestError> {
    match result {
        Ok(response) => Ok(response@),
        Err(error) => Err(error),
    }
}

/// Whether an answer of `read_line` ends the reading of headers: the blank
/// line does, and so does a failure.
pub open spec fn ends_headers(answer: Result<String, TransportError>) -> bool {
    match answer {
        Ok(line) => line@ == blank_line(),
        Err(_) => true,
    }
}

/// What a transport did in the course of one request: the state that each
/// call left it in, and the answer that each call gave. A call that was never
/// made has no meaning here.
pub struct Exchange<S> {
    /// The transport after `connect`.
    pub connected: S,
    /// The answer of `connect`.
    pub connect: Result<(), TransportError>,
    /// The transport after `send`.
    pub sent: S,
    /// The answer of `send`.
    pub send: Result<(), TransportError>,
    /// The transport after each call of `read_line`, in order.
    pub states: Seq<S>,
    /// The answer of each call of `read_line`, in order.
    pub lines: Seq<Result<String, TransportError>>,
    /// The transport after `read_to_string`.
    pub finished: S,
    /// The answer of `read_to_string`.
    pub rest: Result<String, TransportError>,
}

impl<S: Socket> Exchange<S> {
    /// The transport before the `i`-th call of `read_line`.
    pub open spec fn state_before(self, i: int) -> S {
        if i == 0 {
            self.sent
        } else {
            self.states[i - 1]
        }
    }

    /// Whether every recorded call of `read_line` began where the call
    /// before it ended, and did what the transport's `read_line` may do.
    pub open spec fn lines_were_read(self) -> bool {
        &&& self.states.len() == self.lines.len()
        &&& forall|i: int|
            0 <= i < self.lines.len() ==> S::reads_line(
                self.state_before(i),
                self.states[i],
                #[trigger] self.lines[i],
            )
    }

    /// The header lines: the lines after the first and before the last.
    pub open spec fn header_lines(self) -> Seq<Seq<char>> {
        Seq::new((self.lines.len() - 2) as nat, |i: int| self.lines[i + 1]->Ok_0@)
    }

    /// Whether this is the record of a request for `url` that found the
    /// transport as `start`, left it as `end`, and came to `result`.
    pub open spec fn explains(
        self,
        url: UrlModel,
        start: S,
        end: S,
        result: Result<ResponseModel, RequestError>,
    ) -> bool {
        &&& S::connects(start, url.host, port_of(url.scheme), self.connected, self.connect)
        &&& match self.connect {
            Err(error) => {
                &&& end == self.connected
                &&& result == Err::<ResponseModel, RequestError>(
                    RequestError::Transport { stage: Stage::Connect, error },
                )
            },
            Ok(_) => self.explains_sending(url, end, result),
        }
    }

    /// The same, from the sending of the request on.
    pub open spec fn explains_sending(
        self,
        url: UrlModel,
        end: S,
        result: Result<ResponseModel, RequestError>,
    ) -> bool {
        &&& S::sends(self.connected, encode_utf8(request_text(url)), self.sent, self.send)
        &&& match self.send {
            Err(error) => {
                &&& end == self.sent
                &&& result == Err::<ResponseModel, RequestError>(
                    RequestError::Transport { stage: Stage::Send, error },
                )
            },
            Ok(_) => self.explains_reading(end, result),
        }
    }

    /// The same, from the reading of the status line on.
    pub open spec fn explains_reading(
        self,
        end: S,
        result: Result<ResponseModel, RequestError>,
    ) -> bool {
        &&& self.lines.len() >= 1
        &&& self.lines_were_read()
        &&& match self.lines[0] {
            Err(error) => {
                &&& self.lines.len() == 1
                &&& end == self.states[0]
                &&& result == Err::<ResponseModel, RequestError>(
                    RequestError::Transport { stage: Stage::Status, error },
                )
            },
            Ok(line) => match status_of(line@) {
                Err(error) => {
                    &&& self.lines.len() == 1
                    &&& end == self.states[0]
                    &&& result == Err::<ResponseModel, RequestError>(error)
                },
                Ok(status) => self.explains_headers(status, end, result),
            },
        }
    }

    /// The same, from the reading of the headers on: lines were read until
    /// one ended the headers, and the body was read only after a blank line.
    pub open spec fn explains_headers(
        self,
        status: StatusModel,
        end: S,
        result: Result<ResponseModel, RequestError>,
    ) -> bool {
        let last = self.lines.len() - 1;
        &&& last >= 1
        &&& forall|i: int| 1 <= i < last ==> !ends_headers(#[trigger] self.lines[i])
        &&& match self.lines[last] {
            Err(error) => {
                &&& end == self.states[last]
                &&& result == Err::<ResponseModel, RequestError>(
                    RequestError::Transport { stage: Stage::Headers, error },
                )
            },
            Ok(line) => {
                &&& line@ == blank_line()
                &&& S::reads_rest(self.states[last], self.finished, self.rest)
                &&& end == self.finished
                &&& match self.rest {
                    Err(error) => result == Err::<ResponseModel, RequestError>(
                        RequestError::Transport { stage: Stage::Body, error },
                    ),
                    Ok(body) => result == Ok::<ResponseModel, RequestError>(
                        ResponseModel {
                            version: status.version,
                            status: status.status,
                            explanation: status.explanation,
                            headers: headers_of(self.header_lines()),
                            body: body@,
                        },
                    ),
                }
            },
        }
    }
}

/// Whether a request for `url` may find the transport as `start`, leave it
/// as `end` and come to `result`: whether some exchange explains it.
pub open spec fn requested<S: Socket>(
    url: UrlModel,
    start: S,
    end: S,
    result: Result<ResponseModel, RequestError>,
) -> bool {
    exists|exchange: Exchange<S>| #[trigger] exchange.explains(url, start, end, result)
}

/// No response without the blank line. A request that succeeds has read the
/// blank line that ends the headers. Where the transport fails before it,
/// and be it that the stream has ended, the request fails with the failure
/// of the transport: there is no response with fewer headers instead.
pub proof fn headers_end_with_a_blank_line<S: Socket>(
    exchange: Exchange<S>,
    url: UrlModel,
    start: S,
    end: S,
    result: Result<ResponseModel, RequestError>,
)
    requires
        exchange.explains(url, start, end, result),
    ensures
        result is Ok ==> exchange.lines.len() >= 2 && ends_headers(exchange.lines.last())
            && exchange.lines.last() is Ok,
        exchange.connect is Ok && exchange.send is Ok && exchange.lines.last() is Err ==> result
            == Err::<ResponseModel, RequestError>(
            RequestError::Transport {
                stage: if exchange.lines.len() == 1 {
                    Stage::Status
                } else {
                    Stage::Headers
                },
                error: exchange.lines.last()->Err_0,
            },
        ),
{
}

/// The body is all the rest. Once the blank line is read, what the transport
/// reads up to the end of the stream is the body, whatever the headers say
/// and however little it is: the request succeeds, and an empty rest is an
/// empty body.
pub proof fn body_is_all_the_rest<S: Socket>(
    exchange: Exchange<S>,
    url: UrlModel,
    start: S,
    end: S,
    result: Result<ResponseModel, RequestError>,
)
    requires
        exchange.explains(url, start, end, result),
        exchange.connect is Ok,
        exchange.send is Ok,
        exchange.lines[0] matches Ok(line) && status_of(line@) is Ok,
        exchange.lines.last() is Ok,
        exchange.rest is Ok,
    ensures
        result is Ok,
        result->Ok_0.body == exchange.rest->Ok_0@,
        result->Ok_0.headers == headers_of(exchange.header_lines()),
{
}

/// A status line that cannot be read ends the request at once: no line
/// after it is read.
pub proof fn status_line_decides_first<S: Socket>(
    exchange: Exchange<S>,
    url: UrlModel,
    start: S,
    end: S,
    result: Result<ResponseModel, RequestError>,
)
    requires
        exchange.explains(url, start, end, result),
        exchange.connect is Ok,
        exchange.send is Ok,
        exchange.lines[0] matches Ok(line) && status_of(line@) is Err,
    ensures
        exchange.lines.len() == 1,
        result == Err::<ResponseModel, RequestError>(
            status_of(exchange.lines[0]->Ok_0@)->Err_0,
        ),
        end == exchange.states[0],
{
}

impl Scheme {
    /// The port that the transport of this scheme connects to.
    pub fn port(&self) -> (port: u16)
        ensures
            port == port_of(*self),
    {
        match self {
            Scheme::Http => 80,
            Scheme::Https => 443,
        }
    }
}

/// The request for `url`, as text.
pub fn format_request(url: &Url) -> (request: String)
    ensures
        request@ == request_text(url@),
{
    let mut request = String::from_str("GET ");
    request.append(url.path.as_str());
    request.append(" HTTP/1.0\r\nHost: ");
    request.append(url.host.as_str());
    request.append("\r\n\r\n");
    request
}

/// Performs one request for `url` over `socket`: connects to the host at the
/// port of the scheme, sends the request, reads the status line, then header
/// lines up to the blank line, then the body up to the end of the stream.
/// The first failure ends the request and is its result.
///
/// Every call on the transport, what is handed to it and what is done with
/// its answer, is laid down in `Exchange::explains`; the outcome is one that
/// some exchange explains.
pub fn make_request_with_socket<S: Socket>(socket: &mut S, url: &Url) -> (result: Result<
    HttpResponse,
    RequestError,
>)
    ensures
        requested(url@, *old(socket), *final(socket), model_of(result)),
{
    let ghost start = *socket;
    let connect = socket.connect(url.host.as_str(), url.scheme.port());
    let ghost mut exchange = Exchange::<S> {
        connected: *socket,
        connect,
        sent: *socket,
        send: Ok(()),
        states: Seq::empty(),
        lines: Seq::empty(),
        finished: *socket,
        rest: Err(TransportError::EndOfStream),
    };
    if let Err(error) = connect {
        let result = Err(RequestError::Transport { stage: Stage::Connect, error });
        proof {
            assert(exchange.explains(url@, start, *socket, model_of(result)));
        }
        return result;
    }
    let request = format_request(url);
    let send = socket.send(request.as_str().as_bytes());
    proof {
        exchange = Exchange { sent: *socket, send, ..exchange };
    }
    if let Err(error) = send {
        let result = Err(RequestError::Transport { stage: Stage::Send, error });
        proof {
            assert(exchange.explains(url@, start, *socket, model_of(result)));
        }
        return result;
    }
    let first = socket.read_line();
    proof {
        exchange = Exchange { states: seq![*socket], lines: seq![first], ..exchange };
    }
    let status_line = match first {
        Err(error) => {
            let result = Err(RequestError::Transport { stage: Stage::Status, error });
            proof {
                assert(exchange.explains(url@, start, *socket, model_of(result)));
            }
            return result;
        },
        Ok(line) => line,
    };
    let status = match parse_status_line(status_line.as_str()) {
        Err(error) => {
            let result = Err(error);
            proof {
                assert(exchange.explains(url@, start, *socket, model_of(result)));
            }
            return result;
        },
        Ok(status) => status,
    };
    // The header lines are kept until the blank line is read. A vector holds
    // no more than `usize::MAX` of them, which bounds the loop.
    let mut header_lines: Vec<String> = Vec::new();
    loop
        invariant_except_break
            exchange.lines.len() == header_lines@.len() + 1,
        invariant
            start == *old(socket),
            exchange.connect is Ok,
            exchange.send is Ok,
            S::connects(
                start,
                url@.host,
                port_of(url@.scheme),
                exchange.connected,
                exchange.connect,
            ),
            S::sends(
                exchange.connected,
                encode_utf8(request_text(url@)),
                exchange.sent,
                exchange.send,
            ),
            exchange.lines_were_read(),
            exchange.lines[0] matches Ok(line) && status_of(line@) == Ok::<
                StatusModel,
                RequestError,
            >(status@),
            forall|i: int|
                0 <= i < header_lines@.len() ==> exchange.lines[i + 1] == Ok::<
                    String,
                    TransportError,
                >(#[trigger] header_lines@[i]),
            forall|i: int|
                1 <= i <= header_lines@.len() ==> !ends_headers(#[trigger] exchange.lines[i]),
            *socket == exchange.states.last(),
            header_lines@.len() <= usize::MAX,
        ensures
            exchange.lines.len() == header_lines@.len() + 2,
            exchange.lines.last() matches Ok(line) && line@ == blank_line(),
        decreases usize::MAX - header_lines@.len(),
    {
        let answer = socket.read_line();
        proof {
            let before = exchange;
            exchange =
            Exchange {
                states: before.states.push(*socket),
                lines: before.lines.push(answer),
                ..before
            };
            assert forall|i: int| 0 <= i < exchange.lines.len() implies S::reads_line(
                exchange.state_before(i),
                exchange.states[i],
                #[trigger] exchange.lines[i],
            ) by {
                if i < before.lines.len() {
                    assert(exchange.lines[i] == before.lines[i]);
                    assert(exchange.state_before(i) == before.state_before(i));
                }
            }
            assert forall|i: int| 1 <= i <= header_lines@.len() implies !ends_headers(
                #[trigger] exchange.lines[i],
            ) by {
                assert(exchange.lines[i] == before.lines[i]);
            }
            assert forall|i: int| 0 <= i < header_lines@.len() implies exchange.lines[i + 1]
                == Ok::<String, TransportError>(#[trigger] header_lines@[i]) by {
                assert(exchange.lines[i + 1] == before.lines[i + 1]);
            }
            assert(exchange.lines[0] == before.lines[0]);
        }
        let line = match answer {
            Err(error) => {
                let result = Err(RequestError::Transport { stage: Stage::Headers, error });
                proof {
                    assert(exchange.explains_headers(status@, *socket, model_of(result)));
                    assert(exchange.explains(url@, start, *socket, model_of(result)));
                }
                return result;
            },
            Ok(line) => line,
        };
        if is_blank_line(line.as_str()) {
            break ;
        }
        header_lines.push(line);
        assert(header_lines.len() <= usize::MAX);
    }
    let headers = parse_headers(&header_lines);
    let rest = socket.read_to_string();
    proof {
        exchange = Exchange { finished: *socket, rest, ..exchange };
        assert(exchange.header_lines() == texts(header_lines@));
        assert(headers@ == headers_of(exchange.header_lines()));
    }
    let result = match rest {
        Err(error) => Err(RequestError::Transport { stage: Stage::Body, error }),
        Ok(body) => Ok(
            HttpResponse {
                version: status.version,
                status: status.status,
                explanation: status.explanation,
                headers,
                body,
            },
        ),
    };
    proof {
        assert(exchange.explains_headers(status@, *socket, model_of(result)));
        assert(exchange.explains(url@, start, *socket, model_of(result)));
    }
    result
}

/// Performs one request for `url` over the transport that its scheme selects:
/// `plain` for `http`, `encrypted` for `https`. The transport that was not
/// selected is not touched.
pub fn request<P: Socket, E: Socket>(plain: &mut P, encrypted: &mut E, url: &Url) -> (result:
    Result<HttpResponse, RequestError>)
    ensures
        match url.scheme {
            Scheme::Http => {
                &&& requested(url@, *old(plain), *final(plain), model_of(result))
                &&& *final(encrypted) == *old(encrypted)
            },
            Scheme::Https => {
                &&& requested(url@, *old(encrypted), *final(encrypted), model_of(result))
                &&& *final(plain) == *old(plain)
            },
        },
{
    match url.scheme {
        Scheme::Http => make_request_with_socket(plain, url),
        Scheme::Https => make_request_with_socket(encrypted, url),
    }
}

} // verus!
