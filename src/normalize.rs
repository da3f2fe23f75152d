//! Folding of characters and tokens to one canonical, comparable form.

use vstd::prelude::*;
use unicode_normalization::UnicodeNormalization;

verus! {

/// What `unicode_normalization` yields as the compatibility decomposition (NFKD)
/// of a text.
pub uninterp spec fn nfkd_of(s: Seq<char>) -> Seq<char>;

/// What `char::to_lowercase` yields for a character.
pub uninterp spec fn lowercase_of(c: char) -> Seq<char>;

/// Relies on `UnicodeNormalization::nfkd` for `char`: it yields the compatibility
/// decomposition of the character; a character emits at least one character, and
/// an ASCII character emits itself.
#[verifier::external_body]
fn decompose(c: char) -> (r: Vec<char>)
    ensures
        r@ == nfkd_of(seq![c]),
        r@.len() >= 1,
        c <= '\x7f' ==> r@ == seq![c],
{
    c.nfkd().collect()
}

/// Relies on `char::to_lowercase`: it yields the lowercase mapping of the
/// character as one or more characters.
#[verifier::external_body]
fn lowercase(c: char) -> (r: Vec<char>)
    ensures
        r@ == lowercase_of(c),
        r@.len() >= 1,
{
    c.to_lowercase().collect()
}

/// The canonical form of one character: the first character of the lowercase
/// forms of its compatibility decomposition.
pub open spec fn normal_char(c: char) -> char {
    lowercase_of(nfkd_of(seq![c])[0])[0]
}

/// The canonical form of a token: each of its characters folded on its own.
pub open spec fn normal_token(s: Seq<char>) -> Seq<char> {
    s.map_values(|c: char| normal_char(c))
}

/// Folds one character to its canonical form.
pub fn normalize(ch: char) -> (r: char)
    ensures
        r == normal_char(ch),
{
    let decomposed = decompose(ch);
    let lowered = lowercase(decomposed[0]);
    lowered[0]
}

/// Relies on `String::push`: the character is appended at the end.
#[verifier::external_body]
pub(crate) fn push_char(s: &mut String, c: char)
    ensures
        final(s)@ == old(s)@.push(c),
{
    s.push(c)
}

/// Folds every character of a token.
pub fn normalize_token(s: &str) -> (r: String)
    ensures
        r@ == normal_token(s@),
{
    let mut r = String::new();
    for c in it: s.chars()
        invariant
            r@ == normal_token(it.seq().take(it.index() as int)),
    {
        let n = normalize(c);
        push_char(&mut r, n);
    }
    r
}

} // verus!
