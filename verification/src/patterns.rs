//! Regular expressions (`fancy_regex`), compiled once and matched by the
//! syllable heuristics.
//!
//! A `Pattern` keeps the source text it was compiled from next to the
//! compiled automaton; its fields are private and `Pattern::compile` is the
//! only constructor, so every `Pattern` answers for exactly its `source()`.
//! What a backtracking regex engine matches takes far more than a few lines
//! to state, so the match results are named (uninterpreted spec functions
//! of the pattern text and the haystack) rather than restated.
use vstd::prelude::*;
use crate::strings::unicode_whitespace;
use crate::text_stats::WORD_BOUNDARY;

verus! {

#[verifier::external_type_specification]
#[verifier::external_body]
pub struct ExRegex(fancy_regex::Regex);

/// Whether `fancy_regex::Regex::new` accepts `pattern`.
pub uninterp spec fn regex_compiles(pattern: Seq<char>) -> bool;

/// The text of every successful match that `Regex::find_iter` yields for
/// `pattern` over `text`, in order (matches that end in an engine error are
/// left out).
pub uninterp spec fn regex_match_texts(pattern: Seq<char>, text: Seq<char>) -> Seq<Seq<char>>;

/// The text of the first match `Regex::find` reports for `pattern` over
/// `text`; `None` when there is none or the engine gives up with an error.
pub uninterp spec fn regex_first_match(pattern: Seq<char>, text: Seq<char>) -> Option<Seq<char>>;

/// Whether `Regex::is_match` reports a match of `pattern` in `text` (an
/// engine error counts as no match).
pub uninterp spec fn regex_is_match(pattern: Seq<char>, text: Seq<char>) -> bool;

/// The total number of characters in a sequence of strings.
pub open spec fn total_len(ws: Seq<Seq<char>>) -> nat
    decreases ws.len(),
{
    if ws.len() == 0 {
        0
    } else {
        total_len(ws.drop_last()) + ws.last().len()
    }
}

/// A compiled regular expression together with its source text.
pub struct Pattern {
    source: String,
    compiled: fancy_regex::Regex,
}

impl Pattern {
    /// The pattern text this regex was compiled from.
    pub closed spec fn source(&self) -> Seq<char> {
        self.source@
    }

    /// Compiles `source` with `fancy_regex::Regex::new`: `Some` exactly when
    /// the library accepts the pattern, and then the result answers for
    /// `source`.
    #[verifier::external_body]
    pub(crate) fn compile(source: &str) -> (r: Option<Pattern>)
        ensures
            r is Some <==> regex_compiles(source@),
            r matches Some(p) ==> p.source() == source@,
    {
        fancy_regex::Regex::new(source).ok().map(|compiled| Pattern { source: source.to_string(), compiled })
    }

    /// The texts of the successful matches `Regex::find_iter` yields over
    /// `text`, in order. The matches do not overlap, so there is at most one
    /// per position of `text` and together they hold no more characters
    /// than `text` does.
    ///
    /// For `WORD_BOUNDARY` the matches are also local: no match holds a
    /// whitespace character (`\w`, the Latin-1 letters and the apostrophes
    /// hold none) or is empty, and the pattern has no look-around, so where
    /// `text` is cut at a run of whitespace (or at its very start), the
    /// matches are those of the part before followed by those of the part
    /// after.
    #[verifier::external_body]
    pub(crate) fn match_texts(&self, text: &str) -> (r: Vec<String>)
        ensures
            r@.len() <= text@.len() + 1,
            total_len(r@.map_values(|m: String| m@)) <= text@.len(),
            r@.len() == regex_match_texts(self.source(), text@).len(),
            forall|i: int| 0 <= i < r@.len() ==> #[trigger] r@[i]@ == regex_match_texts(self.source(), text@)[i],
            self.source() == WORD_BOUNDARY@ ==> forall|i: int, j: int|
                #![trigger regex_match_texts(WORD_BOUNDARY@, text@.take(i)), regex_match_texts(WORD_BOUNDARY@, text@.skip(j))]
                0 <= i <= j <= text@.len() && (i < j || i == 0)
                    && (forall|k: int| i <= k < j ==> unicode_whitespace(#[trigger] text@[k]))
                    ==> r@.map_values(|m: String| m@) == regex_match_texts(WORD_BOUNDARY@, text@.take(i))
                    + regex_match_texts(WORD_BOUNDARY@, text@.skip(j)),
    {
        self.compiled.find_iter(text).filter_map(|m| m.ok()).map(|m| m.as_str().to_string()).collect()
    }

    /// The text of the first match `Regex::find` reports over `text`, if
    /// any (an engine error reads as no match).
    #[verifier::external_body]
    pub(crate) fn first_match(&self, text: &str) -> (r: Option<String>)
        ensures
            r is Some <==> regex_first_match(self.source(), text@) is Some,
            r matches Some(m) ==> m@ == regex_first_match(self.source(), text@)->0,
    {
        self.compiled.find(text).ok().flatten().map(|m| m.as_str().to_string())
    }

    /// Whether `Regex::is_match` reports a match in `text` (an engine error
    /// reads as no match).
    #[verifier::external_body]
    pub(crate) fn is_match(&self, text: &str) -> (r: bool)
        ensures
            r == regex_is_match(self.source(), text@),
    {
        self.compiled.is_match(text).unwrap_or(false)
    }

    /// How many successful matches `Regex::find_iter` yields over `text`.
    pub(crate) fn count_matches(&self, text: &str) -> (n: usize)
        ensures
            n == regex_match_texts(self.source(), text@).len(),
            n <= text@.len() + 1,
    {
        self.match_texts(text).len()
    }
}

} // verus!
