//! The outside word knowledge the rhyme highlighter leans on: the CMU
//! pronouncing dictionary (`cmudict_fast`), English hyphenation patterns
//! (`hypher`) and the double-metaphone phonetic code (`rphonetic`).
//!
//! A dictionary is a collection: its contents get a name, and the lookup
//! wrapper says which entry it hands out. Hyphenation and metaphone codes
//! are large rule systems whose results depend on their input alone, so
//! they are named too.
use vstd::prelude::*;
use std::str::FromStr;
use rphonetic::Encoder;

verus! {

#[verifier::external_type_specification]
#[verifier::external_body]
pub struct ExCmudict(cmudict_fast::Cmudict);

/// What a parsed dictionary holds: each word with its pronunciations in
/// file order, each pronunciation as its phonemes written the way
/// `cmudict_fast::Symbol` displays them (`"K"`, `"AE1"`: the phoneme's
/// letters, then for a vowel its stress digit).
pub uninterp spec fn dictionary_entries(d: cmudict_fast::Cmudict) -> Map<Seq<char>, Seq<Seq<Seq<char>>>>;

/// What `Cmudict::from_str` makes of a dictionary text: the entries, or
/// `None` when the text does not parse.
pub uninterp spec fn parsed_dictionary(text: Seq<char>) -> Option<Map<Seq<char>, Seq<Seq<Seq<char>>>>>;

/// The pieces `hypher::hyphenate(word, Lang::English)` splits `word` into.
pub uninterp spec fn english_hyphenation(word: Seq<char>) -> Seq<Seq<char>>;

/// The primary code `rphonetic::DoubleMetaphone::default().encode(s)`
/// gives `s`.
pub uninterp spec fn double_metaphone(s: Seq<char>) -> Seq<char>;

/// The characters of `pieces`, one piece after another.
pub open spec fn concat(pieces: Seq<Seq<char>>) -> Seq<char>
    decreases pieces.len(),
{
    if pieces.len() == 0 {
        Seq::empty()
    } else {
        concat(pieces.drop_last()) + pieces.last()
    }
}

/// Parses a dictionary in the CMU text format with `Cmudict::from_str`.
#[verifier::external_body]
pub(crate) fn parse_dictionary(text: &str) -> (r: Option<cmudict_fast::Cmudict>)
    ensures
        r is Some <==> parsed_dictionary(text@) is Some,
        r matches Some(d) ==> dictionary_entries(d) == parsed_dictionary(text@)->0,
{
    cmudict_fast::Cmudict::from_str(text).ok()
}

/// Every pronunciation `Cmudict::get` lists for `word`, in file order, each
/// as its phonemes in the notation `Symbol` displays; `None` when the word
/// is absent.
#[verifier::external_body]
pub(crate) fn pronunciations(d: &cmudict_fast::Cmudict, word: &str) -> (r: Option<Vec<Vec<String>>>)
    ensures
        r is Some <==> dictionary_entries(*d).contains_key(word@),
        r matches Some(ps) ==> ps@.len() == dictionary_entries(*d)[word@].len(),
        r matches Some(ps) ==> forall|i: int|
            0 <= i < ps@.len() ==> (#[trigger] ps@[i])@.map_values(|c: String| c@) == dictionary_entries(*d)[word@][i],
{
    d.get(word).map(|rules| rules.iter().map(|rule| rule.pronunciation().iter().map(|s| s.to_string()).collect()).collect())
}

/// The English hyphenation pieces of `word` (`hypher::hyphenate`). The
/// pieces are consecutive slices of the word: together they spell it.
#[verifier::external_body]
pub(crate) fn hyphenate_english(word: &str) -> (r: Vec<String>)
    ensures
        r@.map_values(|p: String| p@) == english_hyphenation(word@),
        concat(r@.map_values(|p: String| p@)) == word@,
{
    hypher::hyphenate(word, hypher::Lang::English).map(|p| p.to_string()).collect()
}

/// The primary double-metaphone code of `s`
/// (`DoubleMetaphone::default().encode`). The encoder slices its
/// upper-cased input by byte offsets, so it is only called on ASCII text.
#[verifier::external_body]
pub(crate) fn metaphone_code(s: &str) -> (r: String)
    requires
        forall|i: int| 0 <= i < s@.len() ==> (s@[i] as u32) < 128,
    ensures
        r@ == double_metaphone(s@),
{
    rphonetic::DoubleMetaphone::default().encode(s)
}

} // verus!
