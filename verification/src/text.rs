//! Splitting a text: words, grapheme clusters and sentences by the rules
//! of Unicode, paragraphs by blank lines.

use unicode_segmentation::UnicodeSegmentation;
use vstd::prelude::*;

verus! {

/// The words of a text: its segments between Unicode word boundaries that
/// hold a letter or a digit, in the order in which they stand.
pub uninterp spec fn unicode_word_texts(content: Seq<char>) -> Seq<Seq<char>>;

/// The number of extended grapheme clusters of a text.
pub uninterp spec fn grapheme_cluster_count(content: Seq<char>) -> nat;

/// The number of sentences of a text: its segments between Unicode
/// sentence boundaries that hold a letter or a digit.
pub uninterp spec fn unicode_sentence_count(content: Seq<char>) -> nat;

/// A text with every character replaced by its lowercase form.
pub uninterp spec fn lowercase_text(word: Seq<char>) -> Seq<char>;

/// `UnicodeSegmentation::unicode_words` of unicode-segmentation: the words
/// of the text as slices of it, in order. A text without characters has no
/// words.
#[verifier::external_body]
pub(crate) fn unicode_words<'a>(content: &'a str) -> (words: Vec<&'a str>)
    ensures
        words@.len() == unicode_word_texts(content@).len(),
        forall|i: int| 0 <= i < words@.len() ==> (#[trigger] words@[i])@ == unicode_word_texts(content@)[i],
        content@.len() == 0 ==> words@.len() == 0,
{
    content.unicode_words().collect()
}

/// `UnicodeSegmentation::graphemes` of unicode-segmentation, extended
/// clusters: how many clusters the text has. A text without characters has
/// none.
#[verifier::external_body]
pub(crate) fn grapheme_clusters(content: &str) -> (clusters: usize)
    ensures
        clusters == grapheme_cluster_count(content@),
        content@.len() == 0 ==> clusters == 0,
{
    content.graphemes(true).count()
}

/// `UnicodeSegmentation::unicode_sentences` of unicode-segmentation: how
/// many sentences the text has. A text without characters has none.
#[verifier::external_body]
pub(crate) fn unicode_sentences(content: &str) -> (sentences: usize)
    ensures
        sentences == unicode_sentence_count(content@),
        content@.len() == 0 ==> sentences == 0,
{
    content.unicode_sentences().count()
}

/// `str::to_lowercase` of std: the lowercase form of the text.
#[verifier::external_body]
pub(crate) fn to_lowercase(word: &str) -> (lowered: String)
    ensures
        lowered@ == lowercase_text(word@),
{
    word.to_lowercase()
}

/// The byte of a line feed.
pub const LINE_FEED: u8 = 10;

/// The byte of a carriage return.
pub const CARRIAGE_RETURN: u8 = 13;

/// The bytes of a text with every carriage return that stands before a
/// line feed taken out.
pub open spec fn spec_normalized(bytes: Seq<u8>) -> Seq<u8>
    decreases bytes.len(),
{
    if bytes.len() == 0 {
        bytes
    } else if bytes.len() >= 2 && bytes[0] == CARRIAGE_RETURN && bytes[1] == LINE_FEED {
        seq![LINE_FEED] + spec_normalized(bytes.skip(2))
    } else {
        seq![bytes[0]] + spec_normalized(bytes.skip(1))
    }
}

/// The number of blank-line separators, two line feeds in a row, met from
/// left to right; no line feed is part of two separators.
pub open spec fn spec_separators(bytes: Seq<u8>) -> nat
    decreases bytes.len(),
{
    if bytes.len() < 2 {
        0
    } else if bytes[0] == LINE_FEED && bytes[1] == LINE_FEED {
        1 + spec_separators(bytes.skip(2))
    } else {
        spec_separators(bytes.skip(1))
    }
}

/// The number of paragraphs of a text given by its bytes: one more than it
/// has blank-line separators once its line endings are normalized.
pub open spec fn spec_paragraphs(bytes: Seq<u8>) -> nat {
    1 + spec_separators(spec_normalized(bytes))
}

/// The bytes with every carriage return before a line feed taken out.
pub fn normalize_line_endings(bytes: &[u8]) -> (normalized: Vec<u8>)
    ensures
        normalized@ == spec_normalized(bytes@),
{
    let mut normalized: Vec<u8> = Vec::new();
    let mut index: usize = 0;
    proof {
        assert(bytes@.skip(0) =~= bytes@);
        assert(normalized@ + spec_normalized(bytes@) =~= spec_normalized(bytes@));
    }
    while index < bytes.len()
        invariant
            index <= bytes@.len(),
            spec_normalized(bytes@) == normalized@ + spec_normalized(bytes@.skip(index as int)),
        decreases bytes@.len() - index,
    {
        let ghost rest = bytes@.skip(index as int);
        let ghost before = normalized@;
        if bytes[index] == CARRIAGE_RETURN && bytes.len() - index >= 2 && bytes[index + 1]
            == LINE_FEED {
            normalized.push(LINE_FEED);
            index += 2;
            proof {
                assert(rest.skip(2) =~= bytes@.skip(index as int));
                assert(normalized@ + spec_normalized(rest.skip(2)) =~= before + (seq![LINE_FEED]
                    + spec_normalized(rest.skip(2))));
            }
        } else {
            normalized.push(bytes[index]);
            index += 1;
            proof {
                assert(rest.skip(1) =~= bytes@.skip(index as int));
                assert(normalized@ + spec_normalized(rest.skip(1)) =~= before + (seq![rest[0]]
                    + spec_normalized(rest.skip(1))));
            }
        }
    }
    proof {
        assert(bytes@.skip(index as int) =~= Seq::<u8>::empty());
        assert(normalized@ + Seq::<u8>::empty() =~= normalized@);
    }
    normalized
}

/// The number of paragraphs of a text.
pub fn paragraph_count(content: &str) -> (paragraphs: usize)
    ensures
        paragraphs == spec_paragraphs(vstd::utf8::encode_utf8(content@)),
{
    let normalized: Vec<u8> = normalize_line_endings(content.as_bytes());
    let n: usize = normalized.len();
    let mut separators: usize = 0;
    let mut index: usize = 0;
    proof {
        assert(normalized@.skip(0) =~= normalized@);
    }
    while index < n
        invariant
            n == normalized@.len(),
            index <= n,
            2 * separators <= index,
            spec_separators(normalized@) == separators + spec_separators(
                normalized@.skip(index as int),
            ),
        decreases n - index,
    {
        let ghost rest = normalized@.skip(index as int);
        if normalized[index] == LINE_FEED && n - index >= 2 && normalized[index + 1] == LINE_FEED {
            separators += 1;
            index += 2;
            proof {
                assert(rest.skip(2) =~= normalized@.skip(index as int));
            }
        } else {
            index += 1;
            proof {
                assert(rest.skip(1) =~= normalized@.skip(index as int));
            }
        }
    }
    proof {
        assert(normalized@.skip(index as int).len() == 0);
    }
    separators + 1
}

} // verus!
