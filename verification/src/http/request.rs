//! Requests, and reading one from the bytes of a connection.

use crate::http::body::HttpBody;
use crate::http::error::ParseError;
use crate::http::headers::{
    find_blank_line, first_line_len, has_blank_line, headers_from,
    lemma_closed_headers_are_settled, lemma_first_line_is_settled,
    lemma_headers_from_stays_inside, lemma_line_len, line_len, line_text, parse_headers,
};
use crate::http::method::HttpMethod;
use crate::http::path::{tokens_of, HttpPath};
use crate::numeral::{all_digits, digits_value, read_digits};
use crate::table::{inserted, lookup, NameTable};
use crate::text::{
    after_first, before_first, chars_of, decode, find_char, lemma_index_of, occurs, split,
    split_chars, str_equal, string_of, text_of,
    lemma_text_of_keeps_bytes,
};
use vstd::prelude::*;
use vstd::slice::*;
use vstd::string::*;
use vstd::utf8::encode_utf8;

verus! {

/// What a request holds: its method, the tokens of its path, its query
/// parameters, its headers, and the text of its body if it has one.
pub struct RequestModel {
    pub method: HttpMethod,
    pub path: Seq<Seq<char>>,
    pub params: Seq<(Seq<char>, Seq<char>)>,
    pub headers: Seq<(Seq<char>, Seq<char>)>,
    pub body: Option<Seq<char>>,
}

/// The method that a word of a request line names: one of the four known
/// verbs, written in capitals, or else `UNDEFINED`.
pub open spec fn method_of(word: Seq<char>) -> HttpMethod {
    if word == "GET"@ {
        HttpMethod::GET
    } else if word == "POST"@ {
        HttpMethod::POST
    } else if word == "PUT"@ {
        HttpMethod::PUT
    } else if word == "DELETE"@ {
        HttpMethod::DELETE
    } else {
        HttpMethod::UNDEFINED
    }
}

/// The name and the value of one query pair: what stands before its first
/// equals sign and what stands after it. A pair without an equals sign
/// gives none.
pub open spec fn pair_of(piece: Seq<char>) -> Option<(Seq<char>, Seq<char>)> {
    if occurs(piece, '=') {
        Some((before_first(piece, '='), after_first(piece, '=')))
    } else {
        None
    }
}

/// The table after the pairs in `pieces` were put into it one after the
/// other, or nothing where one of them is no pair.
pub open spec fn with_pairs(table: Seq<(Seq<char>, Seq<char>)>, pieces: Seq<Seq<char>>) -> Option<
    Seq<(Seq<char>, Seq<char>)>,
>
    decreases pieces.len(),
{
    if pieces.len() == 0 {
        Some(table)
    } else {
        match with_pairs(table, pieces.drop_last()) {
            None => None,
            Some(before) => match pair_of(pieces.last()) {
                None => None,
                Some(pair) => Some(inserted(before, pair.0, pair.1)),
            },
        }
    }
}

/// The query of a request target: what follows its first question mark,
/// and nothing where it has none.
pub open spec fn query_of(target: Seq<char>) -> Seq<char> {
    if occurs(target, '?') {
        after_first(target, '?')
    } else {
        Seq::empty()
    }
}

/// The table after the query of `target` was read into it: unchanged where
/// the query is empty, else with each of its pairs between ampersands.
pub open spec fn with_query(table: Seq<(Seq<char>, Seq<char>)>, target: Seq<char>) -> Option<
    Seq<(Seq<char>, Seq<char>)>,
> {
    if query_of(target).len() == 0 {
        Some(table)
    } else {
        with_pairs(table, split(query_of(target), '&'))
    }
}

/// What a request line gives: the method, the tokens of the path and the
/// parameters, read into `params`. The line must have exactly three fields
/// with single spaces between them; the third is not looked at.
pub open spec fn request_line_of(text: Seq<char>, params: Seq<(Seq<char>, Seq<char>)>) -> Option<
    (HttpMethod, Seq<Seq<char>>, Seq<(Seq<char>, Seq<char>)>),
> {
    let fields = split(text, ' ');
    if fields.len() != 3 {
        None
    } else {
        match with_query(params, fields[1]) {
            None => None,
            Some(table) => Some(
                (method_of(fields[0]), tokens_of(before_first(fields[1], '?')), table),
            ),
        }
    }
}

/// The number that the value of a content length header names: digits,
/// with or without a plus sign before them, that write a number of at most
/// 2147483647.
pub open spec fn content_length_of(value: Seq<char>) -> Option<nat> {
    let digits = if value.len() > 0 && value[0] == '+' {
        value.skip(1)
    } else {
        value
    };
    if digits.len() > 0 && all_digits(digits) && digits_value(digits) <= 2147483647 {
        Some(digits_value(digits))
    } else {
        None
    }
}

/// The body that follows the headers, and the number of bytes it takes.
/// There is a body only where the headers name a content type; then they
/// must give its length too, that many bytes must be there, and they must
/// be text in UTF-8.
pub open spec fn body_from(rest: Seq<u8>, headers: Seq<(Seq<char>, Seq<char>)>) -> Result<
    (Option<Seq<char>>, nat),
    ParseError,
> {
    if lookup(headers, "Content-Type"@) is None {
        Ok((None, 0))
    } else {
        match lookup(headers, "Content-Length"@) {
            None => Err(ParseError::MissingContentLength),
            Some(value) => match content_length_of(value) {
                None => Err(ParseError::InvalidContentLength),
                Some(n) => if n > rest.len() {
                    Err(ParseError::TruncatedBody)
                } else {
                    match text_of(rest.take(n as int)) {
                        None => Err(ParseError::MalformedBody),
                        Some(text) => Ok((Some(text), n)),
                    }
                },
            },
        }
    }
}

/// Reading a request from `stream` into a request that held `before`: the
/// request line, then the headers, then the body. The result is the request
/// afterwards and the number of bytes read, or the first thing that went
/// wrong. Parameters and headers are added to those of `before`; a body
/// replaces that of `before`.
pub open spec fn parsed(before: RequestModel, stream: Seq<u8>) -> Result<
    (RequestModel, nat),
    ParseError,
> {
    let n = line_len(stream);
    match line_text(stream) {
        None => Err(ParseError::MalformedRequestLine),
        Some(text) => match request_line_of(text, before.params) {
            None => Err(ParseError::MalformedRequestLine),
            Some(line) => {
                let head = headers_from(stream.skip(n as int), before.headers);
                match head.1 {
                    Err(e) => Err(e),
                    Ok(m) => match body_from(stream.skip(n as int + m as int), head.0) {
                        Err(e) => Err(e),
                        Ok(read) => Ok(
                            (
                                RequestModel {
                                    method: line.0,
                                    path: line.1,
                                    params: line.2,
                                    headers: head.0,
                                    body: match read.0 {
                                        Some(text) => Some(text),
                                        None => before.body,
                                    },
                                },
                                n + m + read.1,
                            ),
                        ),
                    },
                }
            },
        }
    }
}

/// Whether a stream that is still open should be read further before the
/// request is taken from it: no complete blank line follows its first line
/// yet, or its body is not all there.
pub open spec fn incomplete(s: Seq<u8>) -> bool {
    ||| !has_blank_line(s.skip(line_len(s) as int))
    ||| parsed(blank_request(), s) == Err::<(RequestModel, nat), ParseError>(
        ParseError::TruncatedBody,
    )
}

/// A body that is all there is read the same, whatever bytes follow the
/// stream.
pub proof fn lemma_whole_body_is_settled(
    rest: Seq<u8>,
    more: Seq<u8>,
    headers: Seq<(Seq<char>, Seq<char>)>,
)
    requires
        body_from(rest, headers) != Err::<(Option<Seq<char>>, nat), ParseError>(
            ParseError::TruncatedBody,
        ),
    ensures
        body_from(rest + more, headers) == body_from(rest, headers),
{
    if lookup(headers, "Content-Type"@) is Some {
        match lookup(headers, "Content-Length"@) {
            None => {},
            Some(value) => match content_length_of(value) {
                None => {},
                Some(n) => {
                    assert((rest + more).take(n as int) =~= rest.take(n as int));
                },
            },
        }
    }
}

/// Once a stream is not incomplete, more bytes change nothing of the
/// request that is read from it.
pub proof fn lemma_whole_request_is_settled(s: Seq<u8>, more: Seq<u8>)
    requires
        !incomplete(s),
    ensures
        parsed(blank_request(), s + more) == parsed(blank_request(), s),
{
    let before = blank_request();
    let n = line_len(s);
    lemma_line_len(s);
    lemma_index_of(s, 10u8);
    assert(s.skip(n as int).len() > 0);
    assert(occurs(s, 10u8));
    lemma_first_line_is_settled(s, more);
    match line_text(s) {
        None => {},
        Some(text) => match request_line_of(text, before.params) {
            None => {},
            Some(line) => {
                let rest = s.skip(n as int);
                lemma_closed_headers_are_settled(rest, more, before.headers);
                lemma_headers_from_stays_inside(rest, before.headers);
                let head = headers_from(rest, before.headers);
                match head.1 {
                    Err(e) => {},
                    Ok(m) => {
                        assert((s + more).skip(n as int + m as int) =~= s.skip(n as int + m as int)
                            + more);
                        lemma_whole_body_is_settled(s.skip(n as int + m as int), more, head.0);
                    },
                }
            },
        }
    }
}

/// A body that was read has exactly the bytes that its length declared:
/// its text in UTF-8 is the bytes that followed the headers, as many as
/// were read.
pub proof fn lemma_body_is_verbatim(rest: Seq<u8>, headers: Seq<(Seq<char>, Seq<char>)>)
    requires
        body_from(rest, headers) is Ok,
        body_from(rest, headers)->Ok_0.0 is Some,
    ensures
        encode_utf8(body_from(rest, headers)->Ok_0.0.unwrap()) == rest.take(
            body_from(rest, headers)->Ok_0.1 as int,
        ),
        lookup(headers, "Content-Length"@) is Some,
        content_length_of(lookup(headers, "Content-Length"@).unwrap()) == Some(
            body_from(rest, headers)->Ok_0.1,
        ),
{
    let n = content_length_of(lookup(headers, "Content-Length"@).unwrap()).unwrap();
    lemma_text_of_keeps_bytes(rest.take(n as int));
}

/// A request.
#[derive(Debug)]
pub struct HttpRequest {
    pub method: HttpMethod,
    pub path: HttpPath,
    pub params: NameTable<String>,
    pub headers: NameTable<String>,
    pub body: Option<HttpBody>,
}

impl View for HttpRequest {
    type V = RequestModel;

    open spec fn view(&self) -> RequestModel {
        RequestModel {
            method: self.method,
            path: self.path@,
            params: self.params.texts(),
            headers: self.headers.texts(),
            body: match self.body {
                Some(body) => Some(body@),
                None => None,
            },
        }
    }
}

/// The request that nothing has been read into yet.
pub open spec fn blank_request() -> RequestModel {
    RequestModel {
        method: HttpMethod::UNDEFINED,
        path: Seq::empty(),
        params: Seq::empty(),
        headers: Seq::empty(),
        body: None,
    }
}

/// Names the method that a word of a request line stands for.
pub fn parse_method(word: &[char]) -> (r: HttpMethod)
    ensures
        r == method_of(word@),
{
    let word: String = string_of(word);
    if str_equal(word.as_str(), "GET") {
        HttpMethod::GET
    } else if str_equal(word.as_str(), "POST") {
        HttpMethod::POST
    } else if str_equal(word.as_str(), "PUT") {
        HttpMethod::PUT
    } else if str_equal(word.as_str(), "DELETE") {
        HttpMethod::DELETE
    } else {
        HttpMethod::UNDEFINED
    }
}

/// Reads the query of `target` into `params`. Returns whether every pair
/// of the query could be read; where one could not, the table stays as it
/// was.
pub fn parse_query(params: &mut NameTable<String>, target: &[char]) -> (r: bool)
    ensures
        r == with_query(old(params).texts(), target@).is_some(),
        r ==> with_query(old(params).texts(), target@) == Some(final(params).texts()),
        !r ==> *final(params) == *old(params),
{
    let mark: usize = find_char(target, '?');
    if mark >= target.len() {
        return true;
    }
    let query: &[char] = slice_subrange(target, mark + 1, target.len());
    proof {
        assert(query@ == query_of(target@));
    }
    if query.len() == 0 {
        return true;
    }
    let pieces: Vec<&[char]> = split_chars(query, '&');
    let ghost all = split(query@, '&');
    let mut k: usize = 0;
    while k < pieces.len()
        invariant
            k <= pieces.len(),
            all == split(query@, '&'),
            query@ == query_of(target@),
            query@.len() > 0,
            pieces@.len() == all.len(),
            forall|j: int| 0 <= j < pieces@.len() ==> (#[trigger] pieces@[j])@ == all[j],
            forall|j: int| 0 <= j < k ==> occurs(#[trigger] all[j], '='),
            *params == *old(params),
        decreases pieces.len() - k,
    {
        let piece: &[char] = pieces[k];
        if find_char(piece, '=') >= piece.len() {
            proof {
                assert(all[k as int] == piece@);
                lemma_with_pairs_fails_on(old(params).texts(), all, k as int);
            }
            return false;
        }
        proof {
            assert(all[k as int] == piece@);
        }
        k += 1;
    }
    k = 0;
    proof {
        assert(all.take(0) == Seq::<Seq<char>>::empty());
    }
    while k < pieces.len()
        invariant
            k <= pieces.len(),
            all == split(query@, '&'),
            query@ == query_of(target@),
            query@.len() > 0,
            pieces@.len() == all.len(),
            forall|j: int| 0 <= j < pieces@.len() ==> (#[trigger] pieces@[j])@ == all[j],
            forall|j: int| 0 <= j < all.len() ==> occurs(#[trigger] all[j], '='),
            with_pairs(old(params).texts(), all.take(k as int)) == Some(params.texts()),
        decreases pieces.len() - k,
    {
        let piece: &[char] = pieces[k];
        let sign: usize = find_char(piece, '=');
        let end: usize = piece.len();
        proof {
            assert(all[k as int] == piece@);
            assert(occurs(all[k as int], '='));
            assert(sign < end);
            assert(all.take(k + 1).drop_last() == all.take(k as int));
            assert(all.take(k + 1).last() == piece@);
        }
        let name: String = string_of(slice_subrange(piece, 0, sign));
        let value: String = string_of(slice_subrange(piece, sign + 1, end));
        proof {
            assert(name@ == before_first(piece@, '='));
            assert(value@ == after_first(piece@, '='));
        }
        params.insert_text(name, value);
        k += 1;
    }
    proof {
        assert(all.take(k as int) == all);
    }
    true
}

/// Where one of the pieces is no pair, the whole query cannot be read.
pub proof fn lemma_with_pairs_fails_on(
    table: Seq<(Seq<char>, Seq<char>)>,
    pieces: Seq<Seq<char>>,
    k: int,
)
    requires
        0 <= k < pieces.len(),
        pair_of(pieces[k]) is None,
    ensures
        with_pairs(table, pieces) is None,
    decreases pieces.len(),
{
    if k < pieces.len() - 1 {
        lemma_with_pairs_fails_on(table, pieces.drop_last(), k);
    }
}

/// Reads the value of a content length header.
pub fn parse_content_length(value: &[char]) -> (r: Option<i32>)
    ensures
        match r {
            Some(n) => n >= 0 && content_length_of(value@) == Some(n as nat),
            None => content_length_of(value@) is None,
        },
{
    let digits: &[char] = if value.len() > 0 && value[0] == '+' {
        slice_subrange(value, 1, value.len())
    } else {
        value
    };
    match read_digits(digits, 2147483647) {
        Some(n) => Some(n as i32),
        None => None,
    }
}

impl Default for HttpRequest {
    /// A request that nothing has been read into.
    fn default() -> (r: Self)
        ensures
            r@ == blank_request(),
    {
        HttpRequest::new()
    }
}

impl HttpRequest {
    /// Tells a driver that reads a connection piece by piece whether to
    /// read on before it takes the request from what it has: no complete
    /// blank line follows the first line yet, or the body is not all
    /// there. At the end of the stream there is nothing more to wait for,
    /// whatever this says.
    pub fn wants_more(stream: &[u8]) -> (r: bool)
        ensures
            r == incomplete(stream@),
    {
        let n: usize = first_line_len(stream);
        if !find_blank_line(slice_subrange(stream, n, stream.len())) {
            return true;
        }
        let mut request: HttpRequest = HttpRequest::new();
        match request.parse(stream) {
            Err(ParseError::TruncatedBody) => true,
            _ => false,
        }
    }

    /// A request that nothing has been read into: no method, the root
    /// path, no parameters, no headers and no body.
    pub fn new() -> (r: Self)
        ensures
            r@ == blank_request(),
    {
        let r = HttpRequest {
            method: HttpMethod::UNDEFINED,
            path: HttpPath::default(),
            params: NameTable::new(),
            headers: NameTable::new(),
            body: None,
        };
        proof {
            assert(r.params.texts() =~= Seq::<(Seq<char>, Seq<char>)>::empty());
            assert(r.headers.texts() =~= Seq::<(Seq<char>, Seq<char>)>::empty());
        }
        r
    }

    /// Reads a request from the bytes of a connection: the request line,
    /// the headers up to a blank line or the end of the stream, and, where
    /// the headers name a content type, a body of the length they give.
    /// Returns the number of bytes read. Where the stream cannot be read,
    /// the request stays as it was.
    pub fn parse(&mut self, stream: &[u8]) -> (r: Result<usize, ParseError>)
        ensures
            match r {
                Ok(n) => parsed(old(self)@, stream@) == Ok::<(RequestModel, nat), ParseError>(
                    (final(self)@, n as nat),
                ),
                Err(e) => {
                    &&& parsed(old(self)@, stream@) == Err::<(RequestModel, nat), ParseError>(e)
                    &&& *final(self) == *old(self)
                },
            },
    {
        let n: usize = first_line_len(stream);
        let text: Vec<char> = match decode(slice_subrange(stream, 0, n)) {
            Some(text) => text,
            None => {
                return Err(ParseError::MalformedRequestLine);
            },
        };
        let fields: Vec<&[char]> = split_chars(text.as_slice(), ' ');
        if fields.len() != 3 {
            return Err(ParseError::MalformedRequestLine);
        }
        let method: HttpMethod = parse_method(fields[0]);
        let target: &[char] = fields[1];
        let mark: usize = find_char(target, '?');
        let path_text: String = string_of(slice_subrange(target, 0, mark));
        let path: HttpPath = HttpPath::from(&path_text);
        let mut params: NameTable<String> = self.params.clone();
        if !parse_query(&mut params, target) {
            return Err(ParseError::MalformedRequestLine);
        }
        let mut headers: NameTable<String> = self.headers.clone();
        let rest: &[u8] = slice_subrange(stream, n, stream.len());
        proof {
            lemma_headers_from_stays_inside(rest@, self.headers.texts());
        }
        let m: usize = match parse_headers(&mut headers, rest) {
            Ok(m) => m,
            Err(e) => {
                return Err(e);
            },
        };
        let rest: &[u8] = slice_subrange(stream, n + m, stream.len());
        proof {
            let line = request_line_of(text@, old(self)@.params);
            assert(line_text(stream@) == Some(text@));
            assert(line == Some((method, path@, params.texts())));
            let head = headers_from(stream@.skip(n as int), old(self)@.headers);
            assert(head.0 == headers.texts());
            assert(head.1 == Ok::<nat, ParseError>(m as nat));
            assert(rest@ == stream@.skip(n as int + m as int));
        }
        if headers.get_text("Content-Type").is_none() {
            self.method = method;
            self.path = path;
            self.params = params;
            self.headers = headers;
            return Ok(n + m);
        }
        let declared: i32 = match headers.get_text("Content-Length") {
            None => {
                return Err(ParseError::MissingContentLength);
            },
            Some(value) => {
                let value: Vec<char> = chars_of(value.as_str());
                match parse_content_length(value.as_slice()) {
                    None => {
                        return Err(ParseError::InvalidContentLength);
                    },
                    Some(declared) => declared,
                }
            },
        };
        let mut body: HttpBody = HttpBody::new();
        let k: usize = match body.parse(declared, rest) {
            Ok(k) => k,
            Err(e) => {
                return Err(e);
            },
        };
        proof {
            assert(body@ =~= text_of(rest@.take(k as int)).unwrap());
        }
        self.method = method;
        self.path = path;
        self.params = params;
        self.headers = headers;
        self.body = Some(body);
        Ok(n + m + k)
    }
}

} // verus!
