//! URLs of the form `scheme://host[/path]`.
//!
//! A URL is split at the first `"://"`; what stands before it names the
//! scheme, what stands after it is split once more at the first `/` into host
//! and path. Nothing is decoded and nothing else is separated: `?` and `#`
//! are ordinary characters of the path.

use crate::text::{
    chars_of, find, first_at, first_occurrence, lemma_first_occurrence_found,
    lemma_first_occurrence_is, occurs_at, part, spells, string_of,
};
use vstd::prelude::*;

verus! {

/// The transport a URL asks for.
#[derive(Debug, Clone, Copy, PartialEq, Eq, Structural)]
pub enum Scheme {
    Http,
    Https,
}

/// A parsed URL.
#[derive(Debug)]
pub struct Url {
    pub scheme: Scheme,
    pub host: String,
    pub path: String,
}

/// What a `Url` holds, as mathematical text.
pub struct UrlModel {
    pub scheme: Scheme,
    pub host: Seq<char>,
    pub path: Seq<char>,
}

/// Why a text is not a URL.
#[derive(Debug, PartialEq, Eq)]
pub enum ParseError {
    /// The text holds no `"://"`.
    MissingScheme,
    /// The text before `"://"`, which names no known scheme.
    UnsupportedScheme(String),
}

/// What a `ParseError` holds, as mathematical text.
pub enum ParseFailure {
    MissingScheme,
    UnsupportedScheme(Seq<char>),
}

impl View for Url {
    type V = UrlModel;

    open spec fn view(&self) -> UrlModel {
        UrlModel { scheme: self.scheme, host: self.host@, path: self.path@ }
    }
}

impl View for ParseError {
    type V = ParseFailure;

    open spec fn view(&self) -> ParseFailure {
        match self {
            ParseError::MissingScheme => ParseFailure::MissingScheme,
            ParseError::UnsupportedScheme(name) => ParseFailure::UnsupportedScheme(name@),
        }
    }
}

/// The text between scheme and host.
pub open spec fn scheme_separator() -> Seq<char> {
    "://"@
}

/// The one character between host and path.
pub open spec fn slash() -> Seq<char> {
    "/"@
}

/// The scheme that `name` spells; the match is exact and case-sensitive.
pub open spec fn scheme_named(name: Seq<char>) -> Option<Scheme> {
    if name == "http"@ {
        Some(Scheme::Http)
    } else if name == "https"@ {
        Some(Scheme::Https)
    } else {
        None
    }
}

/// The host in what follows `"://"`: everything before the first `/`.
pub open spec fn host_in(rest: Seq<char>) -> Seq<char> {
    match first_occurrence(rest, slash()) {
        Some(at) => rest.subrange(0, at),
        None => rest,
    }
}

/// The path in what follows `"://"`: everything from the first `/` on, or a
/// lone `/` where there is none.
pub open spec fn path_in(rest: Seq<char>) -> Seq<char> {
    match first_occurrence(rest, slash()) {
        Some(at) => slash() + rest.subrange(at + 1, rest.len() as int),
        None => slash(),
    }
}

/// What parsing makes of `raw`.
pub open spec fn parse(raw: Seq<char>) -> Result<UrlModel, ParseFailure> {
    match first_occurrence(raw, scheme_separator()) {
        None => Err(ParseFailure::MissingScheme),
        Some(at) => {
            let name = raw.subrange(0, at);
            let rest = raw.subrange(at + scheme_separator().len(), raw.len() as int);
            match scheme_named(name) {
                None => Err(ParseFailure::UnsupportedScheme(name)),
                Some(scheme) => Ok(UrlModel { scheme, host: host_in(rest), path: path_in(rest) }),
            }
        },
    }
}

impl UrlModel {
    /// What holds of every parsed URL: the path begins with `/`, and the host
    /// holds no `/`.
    pub open spec fn well_formed(self) -> bool {
        &&& self.path.len() > 0
        &&& self.path[0] == '/'
        &&& !self.host.contains('/')
    }
}

impl ParseFailure {
    /// The failure in words.
    pub open spec fn message(self) -> Seq<char> {
        match self {
            ParseFailure::MissingScheme => "Invalid URL: missing scheme"@,
            ParseFailure::UnsupportedScheme(name) => "Unsupported scheme: "@ + name,
        }
    }
}

/// A text in which `"://"` stands nowhere is no URL: parsing fails with
/// `MissingScheme`.
pub proof fn missing_separator_fails(raw: Seq<char>)
    requires
        forall|at: int| !occurs_at(raw, scheme_separator(), at),
    ensures
        parse(raw) == Err::<UrlModel, ParseFailure>(ParseFailure::MissingScheme),
{
}

/// A text whose part before the first `"://"` is neither `http` nor `https`
/// is no URL: parsing fails with `UnsupportedScheme`, which carries that part
/// as it was written.
pub proof fn unknown_scheme_fails(raw: Seq<char>, at: int)
    requires
        first_at(raw, scheme_separator(), at),
        raw.subrange(0, at) != "http"@,
        raw.subrange(0, at) != "https"@,
    ensures
        parse(raw) == Err::<UrlModel, ParseFailure>(
            ParseFailure::UnsupportedScheme(raw.subrange(0, at)),
        ),
{
    lemma_first_occurrence_is(raw, scheme_separator(), at);
}

/// A URL that ends with its host has the path `/`: where nothing at all, or
/// nothing with a `/` in it, follows `"://"`, all of it is the host.
pub proof fn url_without_path_has_root_path(raw: Seq<char>, at: int)
    requires
        first_at(raw, scheme_separator(), at),
        scheme_named(raw.subrange(0, at)) is Some,
        !raw.subrange(at + scheme_separator().len(), raw.len() as int).contains('/'),
    ensures
        parse(raw) is Ok,
        parse(raw)->Ok_0.path == slash(),
        parse(raw)->Ok_0.host == raw.subrange(at + scheme_separator().len(), raw.len() as int),
{
    reveal_strlit("/");
    lemma_first_occurrence_is(raw, scheme_separator(), at);
    let rest = raw.subrange(at + scheme_separator().len(), raw.len() as int);
    assert forall|i: int| !occurs_at(rest, slash(), i) by {
        if occurs_at(rest, slash(), i) {
            assert(rest.subrange(i, i + 1)[0] == '/');
            assert(rest[i] == '/');
        }
    }
}

/// Parsing succeeds on exactly the texts that hold `"://"` after `http` or
/// `https`, and whatever it yields is well formed.
pub proof fn parsed_url_is_well_formed(raw: Seq<char>)
    ensures
        parse(raw) is Ok <==> exists|at: int|
            first_at(raw, scheme_separator(), at) && scheme_named(raw.subrange(0, at)) is Some,
        parse(raw) is Ok ==> parse(raw)->Ok_0.well_formed(),
{
    reveal_strlit("/");
    if first_occurrence(raw, scheme_separator()) is Some {
        lemma_first_occurrence_found(raw, scheme_separator());
    }
    if exists|at: int|
        first_at(raw, scheme_separator(), at) && scheme_named(raw.subrange(0, at)) is Some {
        let at = choose|at: int|
            first_at(raw, scheme_separator(), at) && scheme_named(raw.subrange(0, at)) is Some;
        lemma_first_occurrence_is(raw, scheme_separator(), at);
    }
    if parse(raw) is Ok {
        let at = first_occurrence(raw, scheme_separator())->0;
        let rest = raw.subrange(at + scheme_separator().len(), raw.len() as int);
        let host = host_in(rest);
        if first_occurrence(rest, slash()) is Some {
            lemma_first_occurrence_found(rest, slash());
        }
        assert forall|i: int| 0 <= i < host.len() implies host[i] != '/' by {
            if host[i] == '/' {
                assert(rest.subrange(i, i + 1) == slash());
                assert(occurs_at(rest, slash(), i));
            }
        }
    }
}

impl Scheme {
    /// The scheme that `name` spells.
    pub fn named(name: &[char]) -> (scheme: Option<Scheme>)
        ensures
            scheme == scheme_named(name@),
    {
        if spells(name, "http") {
            Some(Scheme::Http)
        } else if spells(name, "https") {
            Some(Scheme::Https)
        } else {
            None
        }
    }
}

impl ParseError {
    /// The failure in words.
    pub fn message(&self) -> (text: String)
        ensures
            text@ == self@.message(),
    {
        match self {
            ParseError::MissingScheme => String::from_str("Invalid URL: missing scheme"),
            ParseError::UnsupportedScheme(name) => {
                let mut text = String::from_str("Unsupported scheme: ");
                text.append(name.as_str());
                text
            },
        }
    }
}

impl Url {
    /// Parses `raw_url`: the result is what `parse` makes of the text, and a
    /// URL that comes out is well formed.
    pub fn new(raw_url: &str) -> (parsed: Result<Url, ParseError>)
        ensures
            match parsed {
                Ok(url) => parse(raw_url@) == Ok::<UrlModel, ParseFailure>(url@),
                Err(error) => parse(raw_url@) == Err::<UrlModel, ParseFailure>(error@),
            },
            parsed matches Ok(url) ==> url@.well_formed(),
    {
        proof {
            parsed_url_is_well_formed(raw_url@);
        }
        let raw = chars_of(raw_url);
        let end = raw.len();
        let separator = chars_of("://");
        let at = match find(raw.as_slice(), separator.as_slice()) {
            None => { return Err(ParseError::MissingScheme); },
            Some(at) => at,
        };
        proof {
            lemma_first_occurrence_found(raw@, separator@);
        }
        let name = part(raw.as_slice(), 0, at);
        let rest = part(raw.as_slice(), at + separator.len(), end);
        let scheme = match Scheme::named(name) {
            None => { return Err(ParseError::UnsupportedScheme(string_of(name))); },
            Some(scheme) => scheme,
        };
        let slash = chars_of("/");
        match find(rest, slash.as_slice()) {
            None => Ok(Url { scheme, host: string_of(rest), path: string_of(slash.as_slice()) }),
            Some(cut) => {
                proof {
                    lemma_first_occurrence_found(rest@, slash@);
                    assert(rest@.subrange(cut as int, rest@.len() as int) == slash@
                        + rest@.subrange(cut + 1, rest@.len() as int)) by {
                        reveal_strlit("/");
                    }
                }
                Ok(
                    Url {
                        scheme,
                        host: string_of(part(rest, 0, cut)),
                        path: string_of(part(rest, cut, rest.len())),
                    },
                )
            },
        }
    }
}

} // verus!
