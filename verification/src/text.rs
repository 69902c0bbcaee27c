//! Sequences of characters and bytes: searching, splitting, trimming and
//! decoding, each with its mathematical meaning.

use vstd::prelude::*;
use vstd::slice::*;
use vstd::string::*;
use vstd::utf8::{
    decode_utf8, decode_utf8_encode_utf8, encode_utf8, encode_utf8_decode_utf8, valid_utf8,
};

verus! {

/// The error of the standard library's UTF-8 check. Nothing is read from it.
#[verifier::external_type_specification]
#[verifier::external_body]
pub struct ExUtf8Error(core::str::Utf8Error);

/// `core::str::from_utf8` of the standard library succeeds exactly on byte
/// sequences that are valid UTF-8, and then gives the string slice that
/// lies over those same bytes.
pub assume_specification<'a>[ core::str::from_utf8 ](v: &'a [u8]) -> (r: Result<
    &'a str,
    core::str::Utf8Error,
>)
    ensures
        r is Ok <==> valid_utf8(v@),
        r is Ok ==> r->Ok_0.spec_bytes() == v@,
;

/// `String::push` of the standard library appends one character to the end
/// of the string and leaves the rest as it was.
pub assume_specification[ String::push ](s: &mut String, c: char)
    ensures
        final(s)@ == old(s)@.push(c),
;

/// The first position at which `x` occurs in `s`, or `s.len()` where it
/// does not occur.
pub open spec fn index_of<T>(s: Seq<T>, x: T) -> nat
    decreases s.len(),
{
    if s.len() == 0 {
        0
    } else if s[0] == x {
        0
    } else {
        1 + index_of(s.drop_first(), x)
    }
}

/// `index_of` lies within the sequence, nothing before it equals `x`, and
/// where it is a position, `x` stands there.
pub proof fn lemma_index_of<T>(s: Seq<T>, x: T)
    ensures
        index_of(s, x) <= s.len(),
        forall|j: int| 0 <= j < index_of(s, x) ==> s[j] != x,
        index_of(s, x) < s.len() ==> s[index_of(s, x) as int] == x,
    decreases s.len(),
{
    if s.len() != 0 && s[0] != x {
        let rest = s.drop_first();
        lemma_index_of(rest, x);
        assert forall|j: int| 0 <= j < index_of(s, x) implies s[j] != x by {
            if j > 0 {
                assert(s[j] == rest[j - 1]);
            }
        }
        if index_of(s, x) < s.len() {
            assert(s[index_of(s, x) as int] == rest[index_of(rest, x) as int]);
        }
    }
}

/// A position `i` that holds `x` with no `x` before it is `index_of`.
pub proof fn lemma_index_of_is<T>(s: Seq<T>, x: T, i: int)
    requires
        0 <= i <= s.len(),
        forall|j: int| 0 <= j < i ==> s[j] != x,
        i < s.len() ==> s[i] == x,
    ensures
        index_of(s, x) == i,
{
    lemma_index_of(s, x);
    let k = index_of(s, x) as int;
    if k < i {
        assert(s[k] != x);
    } else if i < k {
        assert(s[i] != x);
    }
}

/// Whether `x` occurs in `s`.
pub open spec fn occurs<T>(s: Seq<T>, x: T) -> bool {
    index_of(s, x) < s.len()
}

/// The pieces of `s` between occurrences of `sep`. There is always at
/// least one piece; a separator at either end gives an empty piece there.
pub open spec fn split<T>(s: Seq<T>, sep: T) -> Seq<Seq<T>>
    decreases s.len(),
{
    let i = index_of(s, sep);
    if i >= s.len() {
        seq![s]
    } else {
        seq![s.take(i as int)] + split(s.skip(i as int + 1), sep)
    }
}

/// A separator at the very end adds one empty piece and changes no other.
pub proof fn lemma_split_trailing_separator<T>(s: Seq<T>, sep: T)
    ensures
        split(s + seq![sep], sep) == split(s, sep).push(Seq::<T>::empty()),
    decreases s.len(),
{
    let longer = s + seq![sep];
    let i = index_of(s, sep) as int;
    lemma_index_of(s, sep);
    assert(split(Seq::<T>::empty(), sep) == seq![Seq::<T>::empty()]);
    if i >= s.len() {
        lemma_index_of_is(longer, sep, s.len() as int);
        assert(longer.take(s.len() as int) == s);
        assert(longer.skip(s.len() as int + 1) == Seq::<T>::empty());
        assert(split(longer, sep) == seq![s] + seq![Seq::<T>::empty()]);
        assert(seq![s] + seq![Seq::<T>::empty()] == seq![s].push(Seq::<T>::empty()));
    } else {
        lemma_index_of_is(longer, sep, i);
        let rest = s.skip(i + 1);
        lemma_split_trailing_separator(rest, sep);
        assert(longer.take(i) == s.take(i));
        assert(longer.skip(i + 1) == rest + seq![sep]);
        assert(seq![s.take(i)] + split(rest, sep).push(Seq::<T>::empty()) == (seq![s.take(i)]
            + split(rest, sep)).push(Seq::<T>::empty()));
    }
}

/// What stands before the first `sep` in `s`: all of `s` where there is none.
pub open spec fn before_first<T>(s: Seq<T>, sep: T) -> Seq<T> {
    s.take(index_of(s, sep) as int)
}

/// What stands after the first `sep` in `s`. Only meaningful where `sep`
/// occurs.
pub open spec fn after_first<T>(s: Seq<T>, sep: T) -> Seq<T> {
    s.skip(index_of(s, sep) as int + 1)
}

/// The characters with the Unicode property `White_Space`.
pub open spec fn is_whitespace(c: char) -> bool {
    let n = c as u32;
    ||| 0x09 <= n <= 0x0D
    ||| n == 0x20
    ||| n == 0x85
    ||| n == 0xA0
    ||| n == 0x1680
    ||| 0x2000 <= n <= 0x200A
    ||| n == 0x2028
    ||| n == 0x2029
    ||| n == 0x202F
    ||| n == 0x205F
    ||| n == 0x3000
}

/// `s` without its leading whitespace.
pub open spec fn trim_start(s: Seq<char>) -> Seq<char>
    decreases s.len(),
{
    if s.len() > 0 && is_whitespace(s[0]) {
        trim_start(s.drop_first())
    } else {
        s
    }
}

/// `s` without its trailing whitespace.
pub open spec fn trim_end(s: Seq<char>) -> Seq<char>
    decreases s.len(),
{
    if s.len() > 0 && is_whitespace(s.last()) {
        trim_end(s.drop_last())
    } else {
        s
    }
}

/// `s` without whitespace at either end.
pub open spec fn trim(s: Seq<char>) -> Seq<char> {
    trim_end(trim_start(s))
}

/// Whether `s` is empty or all whitespace.
pub open spec fn is_blank(s: Seq<char>) -> bool {
    forall|i: int| 0 <= i < s.len() ==> is_whitespace(#[trigger] s[i])
}

/// The characters that `bytes` encode in UTF-8, where they encode any.
pub open spec fn text_of(bytes: Seq<u8>) -> Option<Seq<char>> {
    if valid_utf8(bytes) {
        Some(decode_utf8(bytes))
    } else {
        None
    }
}

/// The UTF-8 bytes of two texts joined are the bytes of the first followed
/// by the bytes of the second.
pub proof fn lemma_encode_utf8_joined(a: Seq<char>, b: Seq<char>)
    ensures
        encode_utf8(a + b) == encode_utf8(a) + encode_utf8(b),
    decreases a.len(),
{
    if a.len() == 0 {
        assert(a + b == b);
        assert(encode_utf8(a) + encode_utf8(b) == encode_utf8(b));
    } else {
        lemma_encode_utf8_joined(a.drop_first(), b);
        assert((a + b).drop_first() == a.drop_first() + b);
        assert((a + b)[0] == a[0]);
        assert(encode_utf8(a + b) =~= encode_utf8(a) + encode_utf8(b));
    }
}

/// Text that was decoded from bytes has exactly those bytes in UTF-8.
pub proof fn lemma_text_of_keeps_bytes(bytes: Seq<u8>)
    requires
        text_of(bytes) is Some,
    ensures
        encode_utf8(text_of(bytes).unwrap()) == bytes,
{
    decode_utf8_encode_utf8(bytes);
}

/// Tells whether `c` is whitespace.
pub fn char_is_whitespace(c: char) -> (r: bool)
    ensures
        r == is_whitespace(c),
{
    let n: u32 = c as u32;
    (0x09 <= n && n <= 0x0D) || n == 0x20 || n == 0x85 || n == 0xA0 || n == 0x1680 || (0x2000 <= n
        && n <= 0x200A) || n == 0x2028 || n == 0x2029 || n == 0x202F || n == 0x205F || n == 0x3000
}

/// Finds the first `c` in `s`.
pub fn find_char(s: &[char], c: char) -> (r: usize)
    ensures
        r == index_of(s@, c),
        r <= s@.len(),
{
    let mut i: usize = 0;
    while i < s.len() && s[i] != c
        invariant
            i <= s.len(),
            forall|j: int| 0 <= j < i ==> s@[j] != c,
        decreases s.len() - i,
    {
        i += 1;
    }
    proof {
        lemma_index_of_is(s@, c, i as int);
    }
    i
}

/// Finds the first `b` in `s`.
pub fn find_byte(s: &[u8], b: u8) -> (r: usize)
    ensures
        r == index_of(s@, b),
        r <= s@.len(),
{
    let mut i: usize = 0;
    while i < s.len() && s[i] != b
        invariant
            i <= s.len(),
            forall|j: int| 0 <= j < i ==> s@[j] != b,
        decreases s.len() - i,
    {
        i += 1;
    }
    proof {
        lemma_index_of_is(s@, b, i as int);
    }
    i
}

/// Cuts `s` at every `sep`.
pub fn split_chars<'a>(s: &'a [char], sep: char) -> (pieces: Vec<&'a [char]>)
    ensures
        pieces@.len() == split(s@, sep).len(),
        forall|k: int| 0 <= k < pieces@.len() ==> (#[trigger] pieces@[k])@ == split(s@, sep)[k],
{
    let mut pieces: Vec<&'a [char]> = Vec::new();
    let mut rest: &'a [char] = s;
    loop
        invariant
            split(s@, sep).len() == pieces@.len() + split(rest@, sep).len(),
            forall|k: int|
                0 <= k < pieces@.len() ==> (#[trigger] pieces@[k])@ == split(s@, sep)[k],
            forall|k: int|
                0 <= k < split(rest@, sep).len() ==> split(s@, sep)[pieces@.len() + k] == split(
                    rest@,
                    sep,
                )[k],
        decreases rest@.len(),
    {
        let i: usize = find_char(rest, sep);
        if i >= rest.len() {
            proof {
                assert(split(rest@, sep) == seq![rest@]);
                let k: int = 0;
                assert(split(s@, sep)[pieces@.len() + k] == split(rest@, sep)[k]);
            }
            pieces.push(rest);
            return pieces;
        }
        let ghost before = split(rest@, sep);
        let head: &'a [char] = slice_subrange(rest, 0, i);
        let tail: &'a [char] = slice_subrange(rest, i + 1, rest.len());
        proof {
            assert(head@ == rest@.take(i as int));
            assert(tail@ == rest@.skip(i + 1));
            assert(before == seq![head@] + split(tail@, sep));
            assert(before[0] == head@);
            assert forall|k: int| 0 <= k < split(tail@, sep).len() implies split(s@, sep)[pieces@.len()
                + 1 + k] == split(tail@, sep)[k] by {
                assert(before[k + 1] == split(tail@, sep)[k]);
            }
        }
        pieces.push(head);
        rest = tail;
    }
}

/// Drops whitespace from both ends of `s`.
pub fn trim_chars<'a>(s: &'a [char]) -> (r: &'a [char])
    ensures
        r@ == trim(s@),
{
    let mut from: usize = 0;
    proof {
        assert(s@.skip(0) == s@);
    }
    while from < s.len() && char_is_whitespace(s[from])
        invariant
            from <= s.len(),
            trim_start(s@) == trim_start(s@.skip(from as int)),
        decreases s.len() - from,
    {
        proof {
            assert(s@.skip(from as int).drop_first() == s@.skip(from + 1));
        }
        from += 1;
    }
    proof {
        assert(trim_start(s@) == s@.skip(from as int));
    }
    let mut to: usize = s.len();
    while to > from && char_is_whitespace(s[to - 1])
        invariant
            from <= to <= s.len(),
            trim(s@) == trim_end(s@.subrange(from as int, to as int)),
        decreases to,
    {
        proof {
            assert(s@.subrange(from as int, to as int).drop_last() == s@.subrange(
                from as int,
                to - 1,
            ));
        }
        to -= 1;
    }
    slice_subrange(s, from, to)
}

/// Tells whether `s` holds nothing but whitespace.
pub fn chars_are_blank(s: &[char]) -> (r: bool)
    ensures
        r == is_blank(s@),
{
    let mut i: usize = 0;
    while i < s.len()
        invariant
            i <= s.len(),
            forall|j: int| 0 <= j < i ==> is_whitespace(#[trigger] s@[j]),
        decreases s.len() - i,
    {
        if !char_is_whitespace(s[i]) {
            return false;
        }
        i += 1;
    }
    true
}

/// The characters of `s`, in order.
pub fn chars_of(s: &str) -> (v: Vec<char>)
    ensures
        v@ == s@,
{
    let mut v: Vec<char> = Vec::new();
    for c in it: s.chars()
        invariant
            v@ == it.seq().take(it.index() as int),
            it.seq() == s@,
    {
        v.push(c);
    }
    v
}

/// Decodes `bytes` as UTF-8.
pub fn decode(bytes: &[u8]) -> (r: Option<Vec<char>>)
    ensures
        match r {
            Some(chars) => text_of(bytes@) == Some(chars@),
            None => text_of(bytes@) is None,
        },
{
    match core::str::from_utf8(bytes) {
        Ok(s) => {
            proof {
                encode_utf8_decode_utf8(s@);
            }
            Some(chars_of(s))
        },
        Err(_) => None,
    }
}

/// Appends the characters of `s` to `out`.
pub fn push_chars(out: &mut String, s: &[char])
    ensures
        final(out)@ == old(out)@ + s@,
{
    let mut i: usize = 0;
    while i < s.len()
        invariant
            i <= s.len(),
            out@ == old(out)@ + s@.take(i as int),
        decreases s.len() - i,
    {
        proof {
            assert(s@.take(i + 1) == s@.take(i as int).push(s@[i as int]));
        }
        out.push(s[i]);
        i += 1;
    }
    proof {
        assert(s@.take(s@.len() as int) == s@);
    }
}

/// A string made of the characters of `s`.
pub fn string_of(s: &[char]) -> (r: String)
    ensures
        r@ == s@,
{
    let mut r = String::new();
    push_chars(&mut r, s);
    r
}

/// Tells whether two strings hold the same characters.
pub fn str_equal(a: &str, b: &str) -> (r: bool)
    ensures
        r == (a@ == b@),
{
    let x: String = String::from_str(a);
    let y: String = String::from_str(b);
    x == y
}

} // verus!
