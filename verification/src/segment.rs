//! Cutting text by the rules of Unicode text segmentation: word boundaries
//! and grapheme clusters.
use vstd::prelude::*;
use vstd::string::StringSliceAdditionalSpecFns;
use crate::tokenize::{contents, lemma_token_count, offset_of};

verus! {

/// The pieces between the word boundaries of a text.
pub uninterp spec fn word_bounds(s: Seq<char>) -> Seq<Seq<char>>;

/// The extended grapheme clusters of a text.
pub uninterp spec fn grapheme_clusters(s: Seq<char>) -> Seq<Seq<char>>;

/// The characters of every string.
pub open spec fn chars_of(strings: Seq<&str>) -> Seq<Seq<char>> {
    Seq::new(strings.len(), |i: int| strings[i]@)
}

/// The bytes of every string.
pub open spec fn bytes_of(strings: Seq<&str>) -> Seq<Seq<u8>> {
    Seq::new(strings.len(), |i: int| strings[i].spec_bytes())
}

/// The UTF-8 encoding of every piece.
pub open spec fn encoded(pieces: Seq<Seq<char>>) -> Seq<Seq<u8>> {
    Seq::new(pieces.len(), |i: int| vstd::utf8::encode_utf8(pieces[i]))
}

/// The tokens are non-empty and follow one another over the whole of `s`.
pub open spec fn covers_buffer(tokens: Seq<Seq<u8>>, s: Seq<u8>) -> bool {
    &&& offset_of(tokens, tokens.len() as int) == s.len()
    &&& forall|k: int|
        0 <= k < tokens.len() ==> (#[trigger] tokens[k]).len() > 0 && tokens[k] == s.subrange(
            offset_of(tokens, k),
            offset_of(tokens, k) + tokens[k].len(),
        )
}

/// `split_word_bounds` of the crate unicode-segmentation: the pieces of `s`
/// between its word boundaries, in order. The result is a function of the
/// text, and the pieces are non-empty slices of `s` that follow one another
/// over the whole of it.
#[verifier::external_body]
fn split_word_bounds<'a>(s: &'a str) -> (r: Vec<&'a str>)
    ensures
        chars_of(r@) == word_bounds(s@),
        covers_buffer(bytes_of(r@), s.spec_bytes()),
{
    unicode_segmentation::UnicodeSegmentation::split_word_bounds(s).collect()
}

/// `graphemes` of the crate unicode-segmentation, for extended clusters: the
/// grapheme clusters of `s`, in order. The result is a function of the text,
/// and the clusters are non-empty slices of `s` that follow one another over
/// the whole of it.
#[verifier::external_body]
fn graphemes<'a>(s: &'a str) -> (r: Vec<&'a str>)
    ensures
        chars_of(r@) == grapheme_clusters(s@),
        covers_buffer(bytes_of(r@), s.spec_bytes()),
{
    unicode_segmentation::UnicodeSegmentation::graphemes(s, true).collect()
}

/// The strings as byte slices.
fn as_byte_tokens<'a>(strings: &Vec<&'a str>) -> (tokens: Vec<&'a [u8]>)
    ensures
        contents(tokens@) == bytes_of(strings@),
        tokens@.len() == strings@.len(),
{
    let mut tokens: Vec<&'a [u8]> = Vec::new();
    let mut i: usize = 0;
    while i < strings.len()
        invariant
            i <= strings@.len(),
            tokens@.len() == i,
            forall|k: int| 0 <= k < i ==> (#[trigger] tokens@[k])@ == strings@[k].spec_bytes(),
        decreases strings@.len() - i,
    {
        tokens.push(strings[i].as_bytes());
        i = i + 1;
    }
    assert(contents(tokens@) =~= bytes_of(strings@));
    tokens
}

/// What the pieces of a text are, as tokens: the encoding of each piece, in order.
pub proof fn lemma_encoded(strings: Seq<&str>)
    ensures
        bytes_of(strings) == encoded(chars_of(strings)),
{
    assert(bytes_of(strings) =~= encoded(chars_of(strings)));
}

/// The pieces of `s` between its word boundaries, as tokens.
pub fn tokenize_unicode_words<'a>(s: &'a str) -> (tokens: Vec<&'a [u8]>)
    ensures
        contents(tokens@) == encoded(word_bounds(s@)),
        covers_buffer(contents(tokens@), s.spec_bytes()),
        tokens@.len() <= s.spec_bytes().len(),
{
    let pieces = split_word_bounds(s);
    let tokens = as_byte_tokens(&pieces);
    proof {
        lemma_encoded(pieces@);
        lemma_token_count(contents(tokens@), tokens@.len() as int);
    }
    tokens
}

/// The grapheme clusters of `s`, as tokens.
pub fn tokenize_graphemes<'a>(s: &'a str) -> (tokens: Vec<&'a [u8]>)
    ensures
        contents(tokens@) == encoded(grapheme_clusters(s@)),
        covers_buffer(contents(tokens@), s.spec_bytes()),
        tokens@.len() <= s.spec_bytes().len(),
{
    let pieces = graphemes(s);
    let tokens = as_byte_tokens(&pieces);
    proof {
        lemma_encoded(pieces@);
        lemma_token_count(contents(tokens@), tokens@.len() as int);
    }
    tokens
}

} // verus!
