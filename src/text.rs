//! Text primitives: the std string operations the library relies on, each
//! behind a small trusted wrapper, and the byte-wise ordering of timestamps.
use std::cmp::Ordering;
use vstd::prelude::*;
use vstd::utf8::encode_utf8;

verus! {

/// What `str::trim` leaves of a string.
pub uninterp spec fn trimmed(s: Seq<char>) -> Seq<char>;

/// What `str::to_lowercase` makes of a string.
pub uninterp spec fn lowercased(s: Seq<char>) -> Seq<char>;

/// What `str::to_uppercase` makes of a string.
pub uninterp spec fn uppercased(s: Seq<char>) -> Seq<char>;

/// What `str::replace` makes of `s` when every `from` is replaced by `to`.
pub uninterp spec fn replaced(s: Seq<char>, from: Seq<char>, to: Seq<char>) -> Seq<char>;

/// `needle` occurs in `hay` as a contiguous run.
pub open spec fn has_infix(hay: Seq<char>, needle: Seq<char>) -> bool {
    exists|i: int|
        0 <= i && i + needle.len() <= hay.len() && #[trigger] hay.subrange(i, i + needle.len())
            == needle
}

/// Strict lexicographic order on byte strings; a proper prefix comes first.
pub open spec fn bytes_before(a: Seq<u8>, b: Seq<u8>) -> bool
    decreases a.len(),
{
    if a.len() == 0 {
        b.len() > 0
    } else if b.len() == 0 {
        false
    } else if a[0] != b[0] {
        a[0] < b[0]
    } else {
        bytes_before(a.drop_first(), b.drop_first())
    }
}

/// Strict order of two texts: the order of their UTF-8 bytes.
pub open spec fn text_before(a: Seq<char>, b: Seq<char>) -> bool {
    bytes_before(encode_utf8(a), encode_utf8(b))
}

/// Strict order of optional timestamps: a missing one comes before any present one.
pub open spec fn stamp_before(a: Option<Seq<char>>, b: Option<Seq<char>>) -> bool {
    match (a, b) {
        (None, Some(_)) => true,
        (Some(x), Some(y)) => text_before(x, y),
        _ => false,
    }
}

pub proof fn lemma_bytes_irreflexive(a: Seq<u8>)
    ensures
        !bytes_before(a, a),
    decreases a.len(),
{
    if a.len() > 0 {
        lemma_bytes_irreflexive(a.drop_first());
    }
}

pub proof fn lemma_bytes_transitive(a: Seq<u8>, b: Seq<u8>, c: Seq<u8>)
    requires
        bytes_before(a, b),
        bytes_before(b, c),
    ensures
        bytes_before(a, c),
    decreases a.len(),
{
    if a.len() > 0 && b.len() > 0 && c.len() > 0 && a[0] == b[0] && b[0] == c[0] {
        lemma_bytes_transitive(a.drop_first(), b.drop_first(), c.drop_first());
    }
}

pub proof fn lemma_stamp_irreflexive(a: Option<Seq<char>>)
    ensures
        !stamp_before(a, a),
{
    if let Some(x) = a {
        lemma_bytes_irreflexive(encode_utf8(x));
    }
}

pub proof fn lemma_stamp_transitive(a: Option<Seq<char>>, b: Option<Seq<char>>, c: Option<Seq<char>>)
    requires
        stamp_before(a, b),
        stamp_before(b, c),
    ensures
        stamp_before(a, c),
{
    if let (Some(x), Some(y), Some(z)) = (a, b, c) {
        lemma_bytes_transitive(encode_utf8(x), encode_utf8(y), encode_utf8(z));
    }
}

/// Relies on `Ord for str`: strings compare lexicographically by their bytes.
#[verifier::external_body]
pub(crate) fn compare_text(a: &str, b: &str) -> (r: Ordering)
    ensures
        (r == Ordering::Less) == text_before(a@, b@),
        (r == Ordering::Greater) == text_before(b@, a@),
        (r == Ordering::Equal) == (a@ == b@),
{
    a.cmp(b)
}

/// Relies on `str::trim`: the string without leading and trailing whitespace.
#[verifier::external_body]
pub(crate) fn trim_text(s: &str) -> (r: &str)
    ensures
        r@ == trimmed(s@),
{
    s.trim()
}

/// Relies on `str::to_lowercase`: the lowercase form of each character.
#[verifier::external_body]
pub(crate) fn lowercase_text(s: &str) -> (r: String)
    ensures
        r@ == lowercased(s@),
{
    s.to_lowercase()
}

/// Relies on `str::to_uppercase`: the uppercase form of each character.
#[verifier::external_body]
pub(crate) fn uppercase_text(s: &str) -> (r: String)
    ensures
        r@ == uppercased(s@),
{
    s.to_uppercase()
}

/// Relies on `str::replace`: every non-overlapping `from` replaced by `to`.
#[verifier::external_body]
pub(crate) fn replace_text(s: &str, from: &str, to: &str) -> (r: String)
    ensures
        r@ == replaced(s@, from@, to@),
{
    s.replace(from, to)
}

/// Relies on `str::contains` with a `&str` pattern: whether `needle` occurs in `hay`.
#[verifier::external_body]
pub(crate) fn contains_text(hay: &str, needle: &str) -> (r: bool)
    ensures
        r == has_infix(hay@, needle@),
{
    hay.contains(needle)
}

/// Relies on `str::split_once` with a `char` pattern: the text before and
/// after the first `sep`, or none when `sep` does not occur.
#[verifier::external_body]
pub(crate) fn split_once_text(s: &str, sep: char) -> (r: Option<(&str, &str)>)
    ensures
        match r {
            Some((a, b)) => s@ == a@ + seq![sep] + b@ && !a@.contains(sep),
            None => !s@.contains(sep),
        },
{
    s.split_once(sep)
}

} // verus!
