//! The body of a request or a response.

use crate::http::error::ParseError;
use crate::text::{decode, lemma_encode_utf8_joined, lemma_text_of_keeps_bytes, push_chars, text_of};
use vstd::prelude::*;
use vstd::slice::*;
use vstd::string::*;
use vstd::utf8::encode_utf8;

verus! {

/// The number of bytes that a declared length stands for: a negative
/// length stands for none.
pub open spec fn body_len(cont_length: int) -> nat {
    if cont_length < 0 {
        0
    } else {
        cont_length as nat
    }
}

/// A body, held as text. Its bytes on the wire are those of the text in
/// UTF-8.
#[derive(Debug)]
pub struct HttpBody {
    pub raw: String,
}

impl View for HttpBody {
    type V = Seq<char>;

    open spec fn view(&self) -> Seq<char> {
        self.raw@
    }
}

impl Default for HttpBody {
    /// The empty body.
    fn default() -> (r: Self)
        ensures
            r@ == Seq::<char>::empty(),
    {
        HttpBody { raw: String::new() }
    }
}

impl HttpBody {
    /// The empty body.
    pub fn new() -> (r: Self)
        ensures
            r@ == Seq::<char>::empty(),
    {
        HttpBody { raw: String::new() }
    }

    /// Reads `cont_length` bytes from the start of `stream` and appends them
    /// to the body as the text that they are in UTF-8, so that the body's
    /// bytes grow by exactly the bytes read. Returns the number of bytes
    /// read. Where the stream holds fewer bytes, or those bytes are not
    /// text, nothing is read.
    pub fn parse(&mut self, cont_length: i32, stream: &[u8]) -> (r: Result<usize, ParseError>)
        ensures
            match r {
                Ok(n) => {
                    &&& n == body_len(cont_length as int)
                    &&& n <= stream@.len()
                    &&& text_of(stream@.take(n as int)) is Some
                    &&& final(self)@ == old(self)@ + text_of(stream@.take(n as int)).unwrap()
                    &&& encode_utf8(final(self)@) == encode_utf8(old(self)@) + stream@.take(
                        n as int,
                    )
                },
                Err(e) => {
                    &&& *final(self) == *old(self)
                    &&& e == if body_len(cont_length as int) > stream@.len() {
                        ParseError::TruncatedBody
                    } else {
                        ParseError::MalformedBody
                    }
                    &&& body_len(cont_length as int) <= stream@.len() ==> text_of(
                        stream@.take(body_len(cont_length as int) as int),
                    ) is None
                },
            },
    {
        let n: usize = if cont_length < 0 {
            0
        } else {
            cont_length as usize
        };
        if n > stream.len() {
            return Err(ParseError::TruncatedBody);
        }
        match decode(slice_subrange(stream, 0, n)) {
            None => Err(ParseError::MalformedBody),
            Some(text) => {
                proof {
                    lemma_encode_utf8_joined(self@, text@);
                    lemma_text_of_keeps_bytes(stream@.take(n as int));
                }
                push_chars(&mut self.raw, text.as_slice());
                Ok(n)
            },
        }
    }
}

} // verus!
