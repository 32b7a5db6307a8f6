//! Responses, and how their lines are read.
//!
//! A response travels as one status line, any number of header lines, one
//! blank line and then the body, which lasts until the stream closes. This
//! module says what each kind of line means and computes it; it reads from no
//! transport.

use crate::error::RequestError;
use crate::headers::Headers;
use crate::std_specs::lowercase;
use crate::text::{
    chars_of, decimal_u16, ends_with_crlf, find, first_occurrence, lemma_first_occurrence_found,
    lemma_first_occurrence_is, occurs_at, part, read_u16, same_chars, string_of, strip_line_ends,
    trim, trimmed, without_line_ends,
};
use vstd::prelude::*;

verus! {

/// A parsed response.
#[derive(Debug)]
pub struct HttpResponse {
    pub version: String,
    pub status: u16,
    pub explanation: String,
    pub headers: Headers,
    pub body: String,
}

/// What an `HttpResponse` holds, as mathematical text.
pub struct ResponseModel {
    pub version: Seq<char>,
    pub status: u16,
    pub explanation: Seq<char>,
    pub headers: Map<Seq<char>, Seq<char>>,
    pub body: Seq<char>,
}

impl View for HttpResponse {
    type V = ResponseModel;

    open spec fn view(&self) -> ResponseModel {
        ResponseModel {
            version: self.version@,
            status: self.status,
            explanation: self.explanation@,
            headers: self.headers@,
            body: self.body@,
        }
    }
}

/// The three parts of a status line.
#[derive(Debug)]
pub struct StatusLine {
    pub version: String,
    pub status: u16,
    pub explanation: String,
}

/// What a `StatusLine` holds, as mathematical text.
pub struct StatusModel {
    pub version: Seq<char>,
    pub status: u16,
    pub explanation: Seq<char>,
}

impl View for StatusLine {
    type V = StatusModel;

    open spec fn view(&self) -> StatusModel {
        StatusModel { version: self.version@, status: self.status, explanation: self.explanation@ }
    }
}

/// The one character between the parts of a status line.
pub open spec fn space() -> Seq<char> {
    " "@
}

/// The one character between the name and the value of a header.
pub open spec fn colon() -> Seq<char> {
    ":"@
}

/// The line that ends the headers.
pub open spec fn blank_line() -> Seq<char> {
    "\r\n"@
}

/// What a status line says. Without its line end, the line is cut at its
/// first two spaces: protocol version, status code, and an explanation that
/// may itself hold spaces. A line with fewer than two spaces is no status line
/// and a second part that is no 16-bit number is no status code.
pub open spec fn status_of(line: Seq<char>) -> Result<StatusModel, RequestError> {
    let text = without_line_ends(line);
    match first_occurrence(text, space()) {
        None => Err(RequestError::InvalidStatusLine),
        Some(first) => {
            let rest = text.subrange(first + 1, text.len() as int);
            match first_occurrence(rest, space()) {
                None => Err(RequestError::InvalidStatusLine),
                Some(second) => match decimal_u16(rest.subrange(0, second)) {
                    None => Err(RequestError::InvalidStatusCode),
                    Some(status) => Ok(
                        StatusModel {
                            version: text.subrange(0, first),
                            status,
                            explanation: rest.subrange(second + 1, rest.len() as int),
                        },
                    ),
                },
            }
        },
    }
}

/// What a header line says. Without its line end, the line is cut at its
/// first colon: the name is trimmed and put in lower case, the value is
/// trimmed. A line without a colon says nothing.
pub open spec fn header_of(line: Seq<char>) -> Option<(Seq<char>, Seq<char>)> {
    let text = without_line_ends(line);
    match first_occurrence(text, colon()) {
        None => None,
        Some(at) => Some(
            (lowercase(trim(text.subrange(0, at))), trim(text.subrange(at + 1, text.len() as int))),
        ),
    }
}

/// What a run of header lines says: each line that says something sets its
/// name to its value, later lines after earlier ones.
pub open spec fn headers_of(lines: Seq<Seq<char>>) -> Map<Seq<char>, Seq<char>>
    decreases lines.len(),
{
    if lines.len() == 0 {
        Map::empty()
    } else {
        let before = headers_of(lines.drop_last());
        match header_of(lines.last()) {
            Some((name, value)) => before.insert(name, value),
            None => before,
        }
    }
}

/// The parts of `text` that single spaces separate; two spaces in a row have
/// an empty part between them.
pub open spec fn parts(text: Seq<char>) -> Seq<Seq<char>>
    decreases text.len(),
{
    match first_occurrence(text, space()) {
        None => seq![text],
        Some(at) => {
            if 0 <= at < text.len() {
                seq![text.subrange(0, at)] + parts(text.subrange(at + 1, text.len() as int))
            } else {
                seq![text]
            }
        },
    }
}

/// `parts` put together again, with one space between each two.
pub open spec fn joined(parts: Seq<Seq<char>>) -> Seq<char>
    decreases parts.len(),
{
    if parts.len() == 0 {
        Seq::empty()
    } else if parts.len() == 1 {
        parts[0]
    } else {
        parts[0] + space() + joined(parts.drop_first())
    }
}

/// A text has at least one part, and its parts joined are the text.
pub proof fn parts_join_to_the_text(text: Seq<char>)
    ensures
        parts(text).len() >= 1,
        joined(parts(text)) == text,
    decreases text.len(),
{
    reveal_strlit(" ");
    if first_occurrence(text, space()) is Some {
        lemma_first_occurrence_found(text, space());
        let at = first_occurrence(text, space())->0;
        let rest = text.subrange(at + 1, text.len() as int);
        parts_join_to_the_text(rest);
        assert(parts(text).drop_first() == parts(rest));
        assert(text.subrange(at, at + 1) == space());
        assert(text == text.subrange(0, at) + space() + rest);
    }
}

/// A text without a space is its own single part; otherwise its first part
/// ends at the first space and the other parts are those of what follows.
proof fn lemma_parts_unfold(text: Seq<char>)
    ensures
        match first_occurrence(text, space()) {
            None => parts(text) == seq![text],
            Some(at) => {
                let rest = text.subrange(at + 1, text.len() as int);
                &&& 0 <= at < text.len()
                &&& parts(text)[0] == text.subrange(0, at)
                &&& parts(text).skip(1) == parts(rest)
                &&& parts(text).len() == 1 + parts(rest).len()
            },
        },
{
    reveal_strlit(" ");
    if first_occurrence(text, space()) is Some {
        lemma_first_occurrence_found(text, space());
        let at = first_occurrence(text, space())->0;
        let rest = text.subrange(at + 1, text.len() as int);
        assert(parts(text).skip(1) == parts(rest));
    }
}

/// A status line with fewer than three parts is no status line.
pub proof fn short_status_line_is_invalid(line: Seq<char>)
    requires
        parts(without_line_ends(line)).len() < 3,
    ensures
        status_of(line) == Err::<StatusModel, RequestError>(RequestError::InvalidStatusLine),
{
    let text = without_line_ends(line);
    lemma_parts_unfold(text);
    if first_occurrence(text, space()) is Some {
        let first = first_occurrence(text, space())->0;
        let rest = text.subrange(first + 1, text.len() as int);
        lemma_parts_unfold(rest);
        if first_occurrence(rest, space()) is Some {
            let second = first_occurrence(rest, space())->0;
            parts_join_to_the_text(rest.subrange(second + 1, rest.len() as int));
        }
    }
}

/// A status line with three parts or more says what its parts say: the first
/// is the version, the second the status code, and the others, joined again,
/// the explanation. Where the second part is no 16-bit number, the line has
/// no status code.
pub proof fn status_line_is_read_by_parts(line: Seq<char>)
    requires
        parts(without_line_ends(line)).len() >= 3,
    ensures
        ({
            let parts = parts(without_line_ends(line));
            match decimal_u16(parts[1]) {
                None => status_of(line) == Err::<StatusModel, RequestError>(
                    RequestError::InvalidStatusCode,
                ),
                Some(status) => status_of(line) == Ok::<StatusModel, RequestError>(
                    StatusModel { version: parts[0], status, explanation: joined(parts.skip(2)) },
                ),
            }
        }),
{
    let text = without_line_ends(line);
    lemma_parts_unfold(text);
    let first = first_occurrence(text, space())->0;
    let rest = text.subrange(first + 1, text.len() as int);
    lemma_parts_unfold(rest);
    let second = first_occurrence(rest, space())->0;
    let tail = rest.subrange(second + 1, rest.len() as int);
    parts_join_to_the_text(tail);
    assert(parts(text).skip(2) == parts(text).skip(1).skip(1));
    assert(parts(text)[1] == parts(text).skip(1)[0]);
}

/// The line ends of a text that begins with `head` and a colon are those of
/// what follows the colon.
proof fn lemma_line_ends_after_colon(head: Seq<char>, value: Seq<char>)
    ensures
        without_line_ends(head + colon() + value) == head + colon() + without_line_ends(value),
    decreases value.len(),
{
    reveal_strlit(":");
    let line = head + colon() + value;
    if ends_with_crlf(value) {
        let shorter = value.take(value.len() - 2);
        lemma_line_ends_after_colon(head, shorter);
        assert(line.take(line.len() - 2) == head + colon() + shorter);
    }
}

/// A header line is read as its name, a colon and its value: the name counts
/// trimmed and in lower case, the value trimmed and without its line end.
pub proof fn header_line_is_name_and_value(name: Seq<char>, value: Seq<char>)
    requires
        !name.contains(':'),
    ensures
        header_of(name + colon() + value) == Some(
            (lowercase(trim(name)), trim(without_line_ends(value))),
        ),
{
    reveal_strlit(":");
    let text = name + colon() + without_line_ends(value);
    lemma_line_ends_after_colon(name, value);
    let at = name.len() as int;
    assert(text.subrange(at, at + 1) == colon());
    assert forall|earlier: int| 0 <= earlier < at implies !occurs_at(text, colon(), earlier) by {
        if occurs_at(text, colon(), earlier) {
            assert(text.subrange(earlier, earlier + 1)[0] == name[earlier]);
        }
    }
    lemma_first_occurrence_is(text, colon(), at);
    assert(text.subrange(0, at) == name);
    assert(text.subrange(at + 1, text.len() as int) == without_line_ends(value));
}

/// What a run of header lines says depends on each line through what the
/// line says, and on nothing else.
proof fn lemma_headers_of_same(one: Seq<Seq<char>>, other: Seq<Seq<char>>)
    requires
        one.len() == other.len(),
        forall|i: int| 0 <= i < one.len() ==> header_of(#[trigger] one[i]) == header_of(other[i]),
    ensures
        headers_of(one) == headers_of(other),
    decreases one.len(),
{
    if one.len() > 0 {
        assert forall|i: int| 0 <= i < one.drop_last().len() implies header_of(
            #[trigger] one.drop_last()[i],
        ) == header_of(other.drop_last()[i]) by {
            assert(one.drop_last()[i] == one[i]);
        }
        lemma_headers_of_same(one.drop_last(), other.drop_last());
        assert(header_of(one[one.len() - 1]) == header_of(other[one.len() - 1]));
    }
}

/// The case of a header name does not count: two responses that differ in
/// one header line, and there only in a name that is the same in lower case,
/// have the same headers.
pub proof fn case_of_header_name_is_ignored(
    before: Seq<Seq<char>>,
    name: Seq<char>,
    other_name: Seq<char>,
    value: Seq<char>,
    after: Seq<Seq<char>>,
)
    requires
        !name.contains(':'),
        !other_name.contains(':'),
        lowercase(trim(name)) == lowercase(trim(other_name)),
    ensures
        headers_of(before + seq![name + colon() + value] + after) == headers_of(
            before + seq![other_name + colon() + value] + after,
        ),
{
    header_line_is_name_and_value(name, value);
    header_line_is_name_and_value(other_name, value);
    let one = before + seq![name + colon() + value] + after;
    let other = before + seq![other_name + colon() + value] + after;
    assert forall|i: int| 0 <= i < one.len() implies header_of(#[trigger] one[i]) == header_of(
        other[i],
    ) by {
        if i < before.len() {
            assert(one[i] == other[i]);
        } else if i == before.len() {
            assert(one[i] == name + colon() + value);
            assert(other[i] == other_name + colon() + value);
        } else {
            assert(one[i] == other[i]);
        }
    }
    lemma_headers_of_same(one, other);
}

/// The texts of `lines`, in order.
pub open spec fn texts(lines: Seq<String>) -> Seq<Seq<char>> {
    Seq::new(lines.len(), |i: int| lines[i]@)
}

/// Reads a status line.
pub fn parse_status_line(line: &str) -> (parsed: Result<StatusLine, RequestError>)
    ensures
        match parsed {
            Ok(status) => status_of(line@) == Ok::<StatusModel, RequestError>(status@),
            Err(error) => status_of(line@) == Err::<StatusModel, RequestError>(error),
        },
{
    let chars = chars_of(line);
    let text = strip_line_ends(chars.as_slice());
    let end = text.len();
    let space = chars_of(" ");
    let first = match find(text, space.as_slice()) {
        None => { return Err(RequestError::InvalidStatusLine); },
        Some(first) => first,
    };
    proof {
        reveal_strlit(" ");
        lemma_first_occurrence_found(text@, space@);
    }
    let rest = part(text, first + 1, end);
    let second = match find(rest, space.as_slice()) {
        None => { return Err(RequestError::InvalidStatusLine); },
        Some(second) => second,
    };
    proof {
        lemma_first_occurrence_found(rest@, space@);
    }
    let status = match read_u16(part(rest, 0, second)) {
        None => { return Err(RequestError::InvalidStatusCode); },
        Some(status) => status,
    };
    Ok(
        StatusLine {
            version: string_of(part(text, 0, first)),
            status,
            explanation: string_of(part(rest, second + 1, rest.len())),
        },
    )
}

/// Reads a header line: its name and its value, or nothing where the line
/// holds no colon.
pub fn parse_header_line(line: &str) -> (parsed: Option<(String, String)>)
    ensures
        match parsed {
            Some((name, value)) => header_of(line@) == Some((name@, value@)),
            None => header_of(line@) is None,
        },
{
    let chars = chars_of(line);
    let text = strip_line_ends(chars.as_slice());
    let end = text.len();
    let colon = chars_of(":");
    match find(text, colon.as_slice()) {
        None => None,
        Some(at) => {
            proof {
                reveal_strlit(":");
                lemma_first_occurrence_found(text@, colon@);
            }
            let name = string_of(trimmed(part(text, 0, at)));
            let value = string_of(trimmed(part(text, at + 1, end)));
            Some((name.as_str().to_lowercase(), value))
        },
    }
}

/// Whether `line` is the line that ends the headers: a line end and nothing
/// else.
pub fn is_blank_line(line: &str) -> (blank: bool)
    ensures
        blank == (line@ == blank_line()),
{
    let chars = chars_of(line);
    let ending = chars_of("\r\n");
    same_chars(chars.as_slice(), ending.as_slice())
}

/// Reads a run of header lines.
pub fn parse_headers(lines: &Vec<String>) -> (headers: Headers)
    ensures
        headers@ == headers_of(texts(lines@)),
{
    let mut headers = Headers::new();
    let mut i: usize = 0;
    while i < lines.len()
        invariant
            i <= lines.len(),
            headers@ == headers_of(texts(lines@).take(i as int)),
        decreases lines.len() - i,
    {
        proof {
            assert(texts(lines@).take(i + 1).drop_last() == texts(lines@).take(i as int));
        }
        match parse_header_line(lines[i].as_str()) {
            Some((name, value)) => {
                headers.insert(name, value);
            },
            None => {},
        }
        i = i + 1;
    }
    proof {
        assert(texts(lines@).take(lines@.len() as int) == texts(lines@));
    }
    headers
}

} // verus!
