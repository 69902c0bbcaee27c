//! Responses: building one step by step and rendering it as the text that
//! goes back over the connection.

use crate::http::body::HttpBody;
use crate::numeral::{
    decimal, is_digit, lemma_signed_decimal_reads_back, push_decimal, push_signed_decimal,
    signed_decimal, signed_value,
};
use crate::table::{inserted, NameTable};
use crate::text::{after_first, before_first, lemma_index_of_is};
use vstd::prelude::*;
use vstd::string::*;
use vstd::utf8::encode_utf8;

verus! {

/// What a response holds: its status code and message, its headers in
/// their order, and the text of its body if it has one.
pub struct ResponseModel {
    pub status_code: int,
    pub status_message: Seq<char>,
    pub headers: Seq<(Seq<char>, Seq<char>)>,
    pub body: Option<Seq<char>>,
}

/// The first line of a rendered response.
pub open spec fn status_line(code: int, message: Seq<char>) -> Seq<char> {
    "HTTP/1.1 "@ + signed_decimal(code) + seq![' '] + message + "\r\n"@
}

/// One rendered header: the name, a colon, the value and a line ending.
pub open spec fn header_line(header: (Seq<char>, Seq<char>)) -> Seq<char> {
    header.0 + seq![':'] + header.1 + "\r\n"@
}

/// The rendered headers, one line for each, in their order.
pub open spec fn header_lines(headers: Seq<(Seq<char>, Seq<char>)>) -> Seq<char>
    decreases headers.len(),
{
    if headers.len() == 0 {
        Seq::empty()
    } else {
        header_lines(headers.drop_last()) + header_line(headers.last())
    }
}

/// What follows the rendered headers. With a body: the content type, with
/// no line ending after it, the content length as the number of bytes of
/// the body in UTF-8, a blank line and the body. Without one: a blank line.
pub open spec fn body_part(body: Option<Seq<char>>) -> Seq<char> {
    match body {
        Some(text) => "Content-Type: application/json"@ + "Content-Length: "@ + decimal(
            encode_utf8(text).len(),
        ) + "\r\n\r\n"@ + text,
        None => "\r\n"@,
    }
}

/// The text of a response as it goes over the connection.
pub open spec fn rendered(response: ResponseModel) -> Seq<char> {
    status_line(response.status_code, response.status_message) + header_lines(response.headers)
        + body_part(response.body)
}

/// Where the first line ending of `s` begins: the first carriage return
/// that a line feed follows. It is `s.len()` where there is none.
pub open spec fn line_break_at(s: Seq<char>) -> nat
    decreases s.len(),
{
    if s.len() < 2 {
        s.len()
    } else if s[0] == '\r' && s[1] == '\n' {
        0
    } else {
        1 + line_break_at(s.drop_first())
    }
}

/// Whether `s` holds a line ending.
pub open spec fn has_line_break(s: Seq<char>) -> bool {
    exists|i: int| 0 <= i < s.len() - 1 && #[trigger] s[i] == '\r' && s[i + 1] == '\n'
}

/// The status code that a rendered response shows: the numeral between
/// the protocol version and the next space.
pub open spec fn status_code_in(text: Seq<char>) -> int {
    signed_value(before_first(text.skip("HTTP/1.1 "@.len() as int), ' '))
}

/// The status message that a rendered response shows: what stands between
/// the space after the status code and the first line ending.
pub open spec fn status_message_in(text: Seq<char>) -> Seq<char> {
    let rest = after_first(text.skip("HTTP/1.1 "@.len() as int), ' ');
    rest.take(line_break_at(rest) as int)
}

/// In text without a line ending, followed by a line ending and anything
/// else, the first line ending is the one that follows the text.
pub proof fn lemma_line_break_after(text: Seq<char>, tail: Seq<char>)
    requires
        !has_line_break(text),
    ensures
        line_break_at(text + seq!['\r', '\n'] + tail) == text.len(),
    decreases text.len(),
{
    let all = text + seq!['\r', '\n'] + tail;
    if text.len() == 0 {
        assert(all[0] == '\r' && all[1] == '\n');
    } else {
        let rest = text.drop_first();
        assert(all[0] == text[0]);
        if text.len() >= 2 {
            assert(all[1] == text[1]);
            assert(!(text[0] == '\r' && text[1] == '\n'));
        } else {
            assert(all[1] == '\r');
        }
        if has_line_break(rest) {
            let i = choose|i: int| 0 <= i < rest.len() - 1 && #[trigger] rest[i] == '\r' && rest[i + 1] == '\n';
            assert(text[i + 1] == '\r' && text[i + 2] == '\n');
        }
        lemma_line_break_after(rest, tail);
        assert(all.drop_first() == rest + seq!['\r', '\n'] + tail);
    }
}

/// The status code and the status message of a response can be read back
/// from its rendered text, whenever the message holds no line ending.
pub proof fn lemma_status_reads_back(response: ResponseModel)
    requires
        !has_line_break(response.status_message),
    ensures
        status_code_in(rendered(response)) == response.status_code,
        status_message_in(rendered(response)) == response.status_message,
{
    reveal_strlit("HTTP/1.1 ");
    reveal_strlit("\r\n");
    let version = "HTTP/1.1 "@;
    let code = signed_decimal(response.status_code);
    let message = response.status_message;
    let tail = header_lines(response.headers) + body_part(response.body);
    let text = rendered(response);
    let after = text.skip(version.len() as int);
    assert("\r\n"@ == seq!['\r', '\n']);
    assert(after == code + seq![' '] + message + seq!['\r', '\n'] + tail);
    lemma_signed_decimal_reads_back(response.status_code);
    assert forall|j: int| 0 <= j < code.len() implies after[j] != ' ' by {
        assert(after[j] == code[j]);
        assert(is_digit(code[j]) || code[j] == '-');
    }
    assert(after[code.len() as int] == ' ');
    lemma_index_of_is(after, ' ', code.len() as int);
    assert(before_first(after, ' ') == code);
    assert(after_first(after, ' ') == message + seq!['\r', '\n'] + tail);
    lemma_line_break_after(message, tail);
    assert((message + seq!['\r', '\n'] + tail).take(message.len() as int) == message);
}

/// Why a payload could not be made the body of a response.
#[derive(PartialEq, Eq, Structural, Debug, Clone, Copy)]
pub enum BodyError {
    /// The payload could not be written as JSON.
    NotSerializable,
}

/// The error of the JSON serializer. Nothing is read from it.
#[verifier::external_type_specification]
#[verifier::external_body]
pub struct ExJsonError(serde_json::Error);

/// `serde_json::to_string` writes a value as JSON text, or fails where the
/// value's own serializer fails or a map in it has keys that are not
/// strings. What the text is depends on the value's serializer, so nothing
/// is claimed of it.
#[verifier::external_body]
fn to_json<T: serde::Serialize>(payload: &T) -> (r: Result<String, serde_json::Error>) {
    serde_json::to_string(payload)
}

/// A response.
#[derive(Debug)]
pub struct HttpResponse {
    pub status_code: i32,
    pub status_message: String,
    pub headers: NameTable<String>,
    pub body: Option<HttpBody>,
}

impl View for HttpResponse {
    type V = ResponseModel;

    open spec fn view(&self) -> ResponseModel {
        ResponseModel {
            status_code: self.status_code as int,
            status_message: self.status_message@,
            headers: self.headers.texts(),
            body: match self.body {
                Some(body) => Some(body@),
                None => None,
            },
        }
    }
}

/// The response that nothing has been set in yet.
pub open spec fn blank_response() -> ResponseModel {
    ResponseModel {
        status_code: 0,
        status_message: Seq::empty(),
        headers: Seq::empty(),
        body: None,
    }
}

impl Default for HttpResponse {
    /// A response that nothing has been set in.
    fn default() -> (r: Self)
        ensures
            r@ == blank_response(),
    {
        HttpResponse::new()
    }
}

impl HttpResponse {
    /// A response with status code 0, an empty message, no headers and no
    /// body.
    pub fn new() -> (r: Self)
        ensures
            r@ == blank_response(),
    {
        let r = HttpResponse {
            status_code: 0,
            status_message: String::new(),
            headers: NameTable::new(),
            body: None,
        };
        proof {
            assert(r.headers.texts() =~= Seq::<(Seq<char>, Seq<char>)>::empty());
        }
        r
    }

    /// Sets the status code and hands the response on.
    pub fn with_status_code(&mut self, code: i32) -> (r: &mut Self)
        ensures
            r@ == (ResponseModel { status_code: code as int, ..old(self)@ }),
            *final(self) == *final(r),
    {
        self.status_code = code;
        self
    }

    /// Sets the status message and hands the response on.
    pub fn with_status_msg(&mut self, msg: &str) -> (r: &mut Self)
        ensures
            r@ == (ResponseModel { status_message: msg@, ..old(self)@ }),
            *final(self) == *final(r),
    {
        self.status_message = String::from_str(msg);
        self
    }

    /// Sets the header `k` to `v` and hands the response on. A header that
    /// was set before keeps its place and gets the new value; a new one
    /// goes after the others.
    pub fn with_header(&mut self, k: &str, v: &str) -> (r: &mut Self)
        ensures
            r@ == (ResponseModel { headers: inserted(old(self)@.headers, k@, v@), ..old(self)@ }),
            *final(self) == *final(r),
    {
        self.headers.insert_text(String::from_str(k), String::from_str(v));
        self
    }

    /// Makes `json` the body and hands the response on.
    pub fn with_json_text(&mut self, json: String) -> (r: &mut Self)
        ensures
            r@ == (ResponseModel { body: Some(json@), ..old(self)@ }),
            *final(self) == *final(r),
    {
        self.body = Some(HttpBody { raw: json });
        self
    }

    /// Writes `payload` as JSON and makes that text the body. Where the
    /// payload cannot be written as JSON, the response stays as it was.
    pub fn with_json<T: serde::Serialize>(&mut self, payload: T) -> (r: Result<(), BodyError>)
        ensures
            match r {
                Ok(_) => {
                    &&& final(self)@.body is Some
                    &&& final(self)@ == (ResponseModel { body: final(self)@.body, ..old(self)@ })
                },
                Err(e) => e == BodyError::NotSerializable && *final(self) == *old(self),
            },
    {
        let outcome = to_json(&payload);
        self.with_json_outcome(outcome)
    }

    /// Takes what the JSON serializer gave for a payload: its text becomes
    /// the body, or, where it gave an error, the response stays as it was
    /// and the payload is reported as not serializable.
    pub fn with_json_outcome(&mut self, outcome: Result<String, serde_json::Error>) -> (r: Result<
        (),
        BodyError,
    >)
        ensures
            match outcome {
                Ok(json) => {
                    &&& r is Ok
                    &&& final(self)@ == (ResponseModel { body: Some(json@), ..old(self)@ })
                },
                Err(_) => {
                    &&& r == Err::<(), BodyError>(BodyError::NotSerializable)
                    &&& *final(self) == *old(self)
                },
            },
    {
        match outcome {
            Ok(json) => {
                self.with_json_text(json);
                Ok(())
            },
            Err(_) => Err(BodyError::NotSerializable),
        }
    }

    /// Renders the response as the text that goes over the connection.
    pub fn prepare(&self) -> (raw: String)
        ensures
            raw@ == rendered(self@),
    {
        let mut raw: String = String::new();
        raw.append("HTTP/1.1 ");
        push_signed_decimal(&mut raw, self.status_code as i64);
        raw.push(' ');
        raw.append(self.status_message.as_str());
        raw.append("\r\n");
        proof {
            assert(raw@ =~= status_line(self@.status_code, self@.status_message));
        }
        let count: usize = self.headers.len();
        let ghost headers = self@.headers;
        let mut i: usize = 0;
        proof {
            assert(headers.take(0) == Seq::<(Seq<char>, Seq<char>)>::empty());
        }
        while i < count
            invariant
                i <= count,
                count == headers.len(),
                headers == self@.headers,
                raw@ == status_line(self@.status_code, self@.status_message) + header_lines(
                    headers.take(i as int),
                ),
            decreases count - i,
        {
            proof {
                assert(headers.take(i + 1).drop_last() == headers.take(i as int));
                assert(headers.take(i + 1).last() == headers[i as int]);
            }
            raw.append(self.headers.name_at(i).as_str());
            raw.push(':');
            raw.append(self.headers.value_at(i).as_str());
            raw.append("\r\n");
            proof {
                assert(raw@ =~= status_line(self@.status_code, self@.status_message) + header_lines(
                    headers.take(i + 1),
                ));
            }
            i += 1;
        }
        proof {
            assert(headers.take(i as int) == headers);
        }
        match &self.body {
            Some(body) => {
                let ghost head = raw@;
                let text: &str = body.raw.as_str();
                let length: usize = text.as_bytes().len();
                proof {
                    assert(text.spec_bytes() == encode_utf8(body@));
                    assert(length as nat == encode_utf8(body@).len());
                }
                raw.append("Content-Type: application/json");
                raw.append("Content-Length: ");
                push_decimal(&mut raw, length as u64);
                raw.append("\r\n\r\n");
                raw.append(body.raw.as_str());
                proof {
                    assert(raw@ =~= head + body_part(Some(body@)));
                }
            },
            None => {
                raw.append("\r\n");
            },
        }
        raw
    }
}

} // verus!
