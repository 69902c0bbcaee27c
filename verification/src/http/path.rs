//! URL paths as sequences of tokens, and matching a path against a pattern
//! with wildcard tokens.

use crate::text::{chars_of, lemma_split_trailing_separator, split, split_chars, string_of};
use vstd::prelude::*;
use vstd::std_specs::cmp::PartialEqSpecImpl;
use vstd::string::*;

verus! {

/// The tokens of a path: its pieces between slashes, without the empty ones.
pub open spec fn tokens_of(path: Seq<char>) -> Seq<Seq<char>> {
    split(path, '/').filter(|t: Seq<char>| t.len() > 0)
}

/// A pattern token that begins with a colon stands for any one token.
pub open spec fn is_wildcard(token: Seq<char>) -> bool {
    token.len() > 0 && token[0] == ':'
}

/// Whether one token of a path fits one token of a pattern.
pub open spec fn token_matches(url_token: Seq<char>, path_token: Seq<char>) -> bool {
    is_wildcard(path_token) || url_token == path_token
}

/// Whether a path fits a pattern: as many tokens, and each fits the
/// pattern's token at its place.
pub open spec fn tokens_match(candidate: Seq<Seq<char>>, pattern: Seq<Seq<char>>) -> bool {
    &&& candidate.len() == pattern.len()
    &&& forall|i: int|
        0 <= i < pattern.len() ==> token_matches(#[trigger] candidate[i], pattern[i])
}

/// A path fits a pattern whenever every token of the pattern is a wildcard
/// or equal to the path's token at its place; it never fits a pattern with
/// another number of tokens.
pub proof fn lemma_tokens_match(candidate: Seq<Seq<char>>, pattern: Seq<Seq<char>>)
    ensures
        candidate.len() != pattern.len() ==> !tokens_match(candidate, pattern),
        candidate.len() == pattern.len() && (forall|i: int|
            0 <= i < pattern.len() ==> is_wildcard(#[trigger] pattern[i]) || pattern[i]
                == candidate[i]) ==> tokens_match(candidate, pattern),
{
    if candidate.len() == pattern.len() && (forall|i: int|
        0 <= i < pattern.len() ==> is_wildcard(#[trigger] pattern[i]) || pattern[i]
            == candidate[i]) {
        assert forall|i: int| 0 <= i < pattern.len() implies token_matches(
            #[trigger] candidate[i],
            pattern[i],
        ) by {
            assert(is_wildcard(pattern[i]) || pattern[i] == candidate[i]);
        }
    }
}

/// A slash at the end of a path changes nothing of its tokens.
pub proof fn lemma_trailing_slash_is_irrelevant(path: Seq<char>)
    ensures
        tokens_of(path + seq!['/']) == tokens_of(path),
{
    let keep = |t: Seq<char>| t.len() > 0;
    let pieces = split(path, '/');
    lemma_split_trailing_separator(path, '/');
    reveal(Seq::filter);
    assert(pieces.push(Seq::<char>::empty()).drop_last() == pieces);
    assert(pieces.push(Seq::<char>::empty()).filter(keep) == pieces.filter(keep));
}

/// The empty path and the path of one slash are both the root, which has
/// no token.
pub proof fn lemma_root_has_no_token()
    ensures
        tokens_of(Seq::<char>::empty()) == Seq::<Seq<char>>::empty(),
        tokens_of(seq!['/']) == Seq::<Seq<char>>::empty(),
{
    let keep = |t: Seq<char>| t.len() > 0;
    let nothing = Seq::<char>::empty();
    reveal(Seq::filter);
    assert(split(nothing, '/') == seq![nothing]);
    assert(seq![nothing].drop_last() == Seq::<Seq<char>>::empty());
    assert(Seq::<Seq<char>>::empty().filter(keep) == Seq::<Seq<char>>::empty());
    assert(seq![nothing].filter(keep) == Seq::<Seq<char>>::empty());
    lemma_trailing_slash_is_irrelevant(nothing);
    assert(nothing + seq!['/'] == seq!['/']);
}

/// No token of a path is empty.
pub proof fn lemma_tokens_are_not_empty(path: Seq<char>)
    ensures
        forall|i: int| 0 <= i < tokens_of(path).len() ==> (#[trigger] tokens_of(path)[i]).len() > 0,
{
    let keep = |t: Seq<char>| t.len() > 0;
    let pieces = split(path, '/');
    assert forall|i: int| 0 <= i < tokens_of(path).len() implies (#[trigger] tokens_of(
        path,
    )[i]).len() > 0 by {
        pieces.lemma_filter_pred(keep, i);
    }
}

/// The views of a vector of strings.
pub open spec fn views_of(tokens: Seq<String>) -> Seq<Seq<char>> {
    Seq::new(tokens.len(), |i: int| tokens[i]@)
}

/// A path, held as its tokens. No token is empty.
#[derive(Debug, Hash)]
pub struct HttpPath {
    tokens: Vec<String>,
}

impl View for HttpPath {
    type V = Seq<Seq<char>>;

    closed spec fn view(&self) -> Seq<Seq<char>> {
        views_of(self.tokens@)
    }
}

impl HttpPath {
    #[verifier::type_invariant]
    spec fn no_empty_token(&self) -> bool {
        forall|i: int| 0 <= i < self.tokens@.len() ==> (#[trigger] self.tokens@[i])@.len() > 0
    }

    /// Reads a path: cuts it at every slash and keeps the pieces that are
    /// not empty.
    pub fn from(path: &String) -> (r: Self)
        ensures
            r@ == tokens_of(path@),
    {
        let chars: Vec<char> = chars_of(path.as_str());
        let pieces: Vec<&[char]> = split_chars(chars.as_slice(), '/');
        let ghost all = split(path@, '/');
        let ghost keep = |t: Seq<char>| t.len() > 0;
        let mut tokens: Vec<String> = Vec::new();
        let mut k: usize = 0;
        while k < pieces.len()
            invariant
                k <= pieces.len(),
                chars@ == path@,
                all == split(path@, '/'),
                keep == |t: Seq<char>| t.len() > 0,
                pieces@.len() == all.len(),
                forall|j: int| 0 <= j < pieces@.len() ==> (#[trigger] pieces@[j])@ == all[j],
                views_of(tokens@) == all.take(k as int).filter(keep),
                forall|i: int| 0 <= i < tokens@.len() ==> (#[trigger] tokens@[i])@.len() > 0,
            decreases pieces.len() - k,
        {
            let piece: &[char] = pieces[k];
            proof {
                assert(all.take(k + 1).drop_last() == all.take(k as int));
                assert(all.take(k + 1).last() == piece@);
                reveal(Seq::filter);
            }
            if piece.len() != 0 {
                let token: String = string_of(piece);
                tokens.push(token);
                proof {
                    assert(views_of(tokens@) == all.take(k as int).filter(keep).push(piece@));
                }
            }
            k += 1;
        }
        proof {
            assert(all.take(k as int) == all);
        }
        HttpPath { tokens }
    }

    /// The tokens of the path, in order.
    pub fn tokens(&self) -> (r: &Vec<String>)
        ensures
            views_of(r@) == self@,
    {
        &self.tokens
    }

    /// Tells whether this path fits the pattern `other`.
    pub fn does_match(&self, other: &HttpPath) -> (r: bool)
        ensures
            r == tokens_match(self@, other@),
    {
        if self.tokens.len() != other.tokens.len() {
            return false;
        }
        let mut i: usize = 0;
        while i < self.tokens.len()
            invariant
                i <= self.tokens.len(),
                self.tokens.len() == other.tokens.len(),
                forall|j: int| 0 <= j < i ==> token_matches(#[trigger] self@[j], other@[j]),
            decreases self.tokens.len() - i,
        {
            if !match_tokens(&self.tokens[i], &other.tokens[i]) {
                assert(!token_matches(self@[i as int], other@[i as int]));
                return false;
            }
            i += 1;
        }
        true
    }
}

impl Default for HttpPath {
    /// The root path, which has no token.
    fn default() -> (r: Self)
        ensures
            r@ == Seq::<Seq<char>>::empty(),
    {
        let r = HttpPath { tokens: Vec::new() };
        assert(r@ =~= Seq::<Seq<char>>::empty());
        r
    }
}

impl PartialEq for HttpPath {
    /// Two paths are equal where their tokens are the same, one by one.
    fn eq(&self, other: &HttpPath) -> (r: bool) {
        if self.tokens.len() != other.tokens.len() {
            assert(self@.len() != other@.len());
            return false;
        }
        let mut i: usize = 0;
        while i < self.tokens.len()
            invariant
                i <= self.tokens.len(),
                self.tokens.len() == other.tokens.len(),
                forall|j: int| 0 <= j < i ==> self@[j] == other@[j],
            decreases self.tokens.len() - i,
        {
            if self.tokens[i] != other.tokens[i] {
                assert(self@[i as int] != other@[i as int]);
                return false;
            }
            i += 1;
        }
        assert(self@ =~= other@);
        true
    }
}

impl PartialEqSpecImpl for HttpPath {
    open spec fn obeys_eq_spec() -> bool {
        true
    }

    open spec fn eq_spec(&self, other: &HttpPath) -> bool {
        self@ == other@
    }
}

impl Eq for HttpPath {

}

/// Tells whether a token of a path fits a token of a pattern: a pattern
/// token that begins with a colon fits any token, any other only itself.
pub fn match_tokens(url_token: &String, path_token: &String) -> (r: bool)
    ensures
        r == token_matches(url_token@, path_token@),
{
    let pattern: &str = path_token.as_str();
    if !pattern.is_empty() && pattern.get_char(0) == ':' {
        true
    } else {
        *url_token == *path_token
    }
}

} // verus!
