//! Header lines: cutting a byte stream into lines and reading each line as
//! a name and a value.

use crate::http::error::ParseError;
use crate::table::{inserted, NameTable};
use crate::text::{
    after_first, before_first, chars_are_blank, decode, find_byte, find_char, index_of, is_blank,
    lemma_index_of, lemma_index_of_is, occurs, string_of, text_of, trim, trim_chars,
};
use vstd::prelude::*;
use vstd::slice::*;

verus! {

/// The length of the first line of `s`: up to and with its line feed, or
/// all of `s` where it holds no line feed.
pub open spec fn line_len(s: Seq<u8>) -> nat {
    let i = index_of(s, 10u8);
    if i < s.len() {
        i + 1
    } else {
        s.len()
    }
}

/// The text of the first line of `s`, with its line ending, where that line
/// is valid UTF-8.
pub open spec fn line_text(s: Seq<u8>) -> Option<Seq<char>> {
    text_of(s.take(line_len(s) as int))
}

/// The name and the value that a header line gives: what stands before its
/// first colon and what stands after it, each without the whitespace around
/// it. A line without a colon gives none.
pub open spec fn header_of(text: Seq<char>) -> Option<(Seq<char>, Seq<char>)> {
    if occurs(text, ':') {
        Some((trim(before_first(text, ':')), trim(after_first(text, ':'))))
    } else {
        None
    }
}

/// Reading header lines from `s` into `table`. The lines end at the first
/// blank line, which is read too, or at the end of `s`. The result holds
/// the table as the lines read so far have left it, and either the number
/// of bytes read or the reason why a line could not be read.
pub open spec fn headers_from(s: Seq<u8>, table: Seq<(Seq<char>, Seq<char>)>) -> (
    Seq<(Seq<char>, Seq<char>)>,
    Result<nat, ParseError>,
)
    decreases s.len(),
{
    if s.len() == 0 {
        (table, Ok(0))
    } else {
        let n = line_len(s);
        match line_text(s) {
            None => (table, Err(ParseError::MalformedHeader)),
            Some(text) => if is_blank(text) {
                (table, Ok(n))
            } else {
                match header_of(text) {
                    None => (table, Err(ParseError::MalformedHeader)),
                    Some(header) => {
                        let rest = headers_from(
                            s.skip(n as int),
                            inserted(table, header.0, header.1),
                        );
                        (
                            rest.0,
                            match rest.1 {
                                Ok(m) => Ok(n + m),
                                Err(e) => Err(e),
                            },
                        )
                    },
                }
            },
        }
    }
}

/// The first line of a stream is never longer than the stream, and not
/// empty unless the stream is.
pub proof fn lemma_line_len(s: Seq<u8>)
    ensures
        line_len(s) <= s.len(),
        s.len() > 0 ==> line_len(s) > 0,
{
    lemma_index_of(s, 10u8);
}

/// Whatever the lines hold, no more bytes are read than the stream has.
pub proof fn lemma_headers_from_stays_inside(s: Seq<u8>, table: Seq<(Seq<char>, Seq<char>)>)
    ensures
        headers_from(s, table).1 is Ok ==> headers_from(s, table).1->Ok_0 <= s.len(),
    decreases s.len(),
{
    if s.len() != 0 {
        lemma_line_len(s);
        let n = line_len(s);
        match line_text(s) {
            None => {},
            Some(text) => {
                if !is_blank(text) {
                    match header_of(text) {
                        None => {},
                        Some(header) => {
                            lemma_headers_from_stays_inside(
                                s.skip(n as int),
                                inserted(table, header.0, header.1),
                            );
                        },
                    }
                }
            },
        }
    }
}

/// A first line that ends with a line feed stays the first line, whatever
/// bytes follow the stream.
pub proof fn lemma_first_line_is_settled(s: Seq<u8>, more: Seq<u8>)
    requires
        occurs(s, 10u8),
    ensures
        line_len(s + more) == line_len(s),
        (s + more).take(line_len(s) as int) == s.take(line_len(s) as int),
        (s + more).skip(line_len(s) as int) == s.skip(line_len(s) as int) + more,
        line_text(s + more) == line_text(s),
        s[line_len(s) - 1] == 10u8,
{
    lemma_index_of(s, 10u8);
    let i = index_of(s, 10u8) as int;
    assert forall|j: int| 0 <= j < i implies (s + more)[j] != 10u8 by {
        assert((s + more)[j] == s[j]);
    }
    assert((s + more)[i] == s[i]);
    lemma_index_of_is(s + more, 10u8, i);
    assert((s + more).take(i + 1) =~= s.take(i + 1));
    assert((s + more).skip(i + 1) =~= s.skip(i + 1) + more);
}

/// Whether `s` holds a blank line that is complete, that is, one that ends
/// with a line feed.
pub open spec fn has_blank_line(s: Seq<u8>) -> bool
    decreases s.len(),
{
    if s.len() == 0 {
        false
    } else {
        let n = line_len(s);
        ||| {
            &&& s[n - 1] == 10u8
            &&& line_text(s) is Some
            &&& is_blank(line_text(s).unwrap())
        }
        ||| has_blank_line(s.skip(n as int))
    }
}

/// Header lines that a complete blank line closes are read the same,
/// whatever bytes follow the stream.
pub proof fn lemma_closed_headers_are_settled(
    s: Seq<u8>,
    more: Seq<u8>,
    table: Seq<(Seq<char>, Seq<char>)>,
)
    requires
        has_blank_line(s),
    ensures
        headers_from(s + more, table) == headers_from(s, table),
    decreases s.len(),
{
    let n = line_len(s);
    lemma_line_len(s);
    lemma_index_of(s, 10u8);
    if !occurs(s, 10u8) {
        assert(s[n - 1] != 10u8);
        assert(s.skip(n as int).len() == 0);
        assert(!has_blank_line(s.skip(n as int)));
    } else {
        lemma_first_line_is_settled(s, more);
        assert((s + more).len() > 0);
        match line_text(s) {
            None => {},
            Some(text) => {
                if !is_blank(text) {
                    match header_of(text) {
                        None => {},
                        Some(header) => {
                            assert(has_blank_line(s.skip(n as int)));
                            lemma_closed_headers_are_settled(
                                s.skip(n as int),
                                more,
                                inserted(table, header.0, header.1),
                            );
                        },
                    }
                }
            },
        }
    }
}

/// Measures the first line of `s`.
pub fn first_line_len(s: &[u8]) -> (n: usize)
    ensures
        n == line_len(s@),
        n <= s@.len(),
{
    let i: usize = find_byte(s, 10u8);
    if i < s.len() {
        i + 1
    } else {
        s.len()
    }
}

/// Looks for a complete blank line in `stream`.
pub fn find_blank_line(stream: &[u8]) -> (r: bool)
    ensures
        r == has_blank_line(stream@),
{
    let mut pos: usize = 0;
    proof {
        assert(stream@.skip(0) == stream@);
    }
    while pos < stream.len()
        invariant
            pos <= stream@.len(),
            has_blank_line(stream@) == has_blank_line(stream@.skip(pos as int)),
        decreases stream@.len() - pos,
    {
        let rest: &[u8] = slice_subrange(stream, pos, stream.len());
        let n: usize = first_line_len(rest);
        proof {
            lemma_line_len(rest@);
            assert(rest@.skip(n as int) == stream@.skip(pos + n));
        }
        if rest[n - 1] == 10u8 {
            match decode(slice_subrange(rest, 0, n)) {
                Some(text) => {
                    if chars_are_blank(text.as_slice()) {
                        return true;
                    }
                },
                None => {},
            }
        }
        pos = pos + n;
    }
    false
}

/// Reads one header line as a name and a value.
pub fn parse_header_line(text: &[char]) -> (r: Option<(String, String)>)
    ensures
        match r {
            Some(pair) => header_of(text@) == Some((pair.0@, pair.1@)),
            None => header_of(text@) is None,
        },
{
    let colon: usize = find_char(text, ':');
    if colon >= text.len() {
        return None;
    }
    let name: &[char] = trim_chars(slice_subrange(text, 0, colon));
    let value: &[char] = trim_chars(slice_subrange(text, colon + 1, text.len()));
    proof {
        assert(text@.subrange(0, colon as int) == before_first(text@, ':'));
        assert(text@.subrange(colon + 1, text@.len() as int) == after_first(text@, ':'));
    }
    Some((string_of(name), string_of(value)))
}

/// Reads header lines from `stream` into `headers` until a blank line or
/// the end of the stream, and returns the number of bytes read. A later
/// header of a name replaces an earlier one. Where a line cannot be read,
/// the headers of the lines before it stay in the table.
pub fn parse_headers(headers: &mut NameTable<String>, stream: &[u8]) -> (r: Result<
    usize,
    ParseError,
>)
    ensures
        final(headers).texts() == headers_from(stream@, old(headers).texts()).0,
        match r {
            Ok(n) => headers_from(stream@, old(headers).texts()).1 == Ok::<nat, ParseError>(
                n as nat,
            ),
            Err(e) => headers_from(stream@, old(headers).texts()).1 == Err::<nat, ParseError>(e),
        },
{
    let mut pos: usize = 0;
    let ghost goal = headers_from(stream@, old(headers).texts());
    proof {
        assert(stream@.skip(0) == stream@);
    }
    loop
        invariant
            pos <= stream@.len(),
            goal == headers_from(stream@, old(headers).texts()),
            goal.0 == headers_from(stream@.skip(pos as int), headers.texts()).0,
            goal.1 == match headers_from(stream@.skip(pos as int), headers.texts()).1 {
                Ok(m) => Ok::<nat, ParseError>(pos as nat + m),
                Err(e) => Err(e),
            },
        decreases stream@.len() - pos,
    {
        let rest: &[u8] = slice_subrange(stream, pos, stream.len());
        if rest.len() == 0 {
            return Ok(pos);
        }
        let n: usize = first_line_len(rest);
        proof {
            lemma_line_len(rest@);
        }
        let text: Vec<char> = match decode(slice_subrange(rest, 0, n)) {
            Some(text) => text,
            None => {
                return Err(ParseError::MalformedHeader);
            },
        };
        if chars_are_blank(text.as_slice()) {
            return Ok(pos + n);
        }
        match parse_header_line(text.as_slice()) {
            None => {
                return Err(ParseError::MalformedHeader);
            },
            Some(pair) => {
                proof {
                    assert(rest@.skip(n as int) == stream@.skip(pos + n));
                }
                headers.insert_text(pair.0, pair.1);
                pos = pos + n;
            },
        }
    }
}

} // verus!
