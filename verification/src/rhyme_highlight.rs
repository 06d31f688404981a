//! Rhyme highlighting: every rhymeable syllable of every word gets a rhyme
//! key (its phonemes from the vowel on, stress stripped) and a span of the
//! word's letters; syllables sharing a key across the document form a
//! rhyme group, and every group with two or more members is colored.
use vstd::prelude::*;
use crate::lexicon::{
    concat, dictionary_entries, double_metaphone, english_hyphenation, pronunciations,
    hyphenate_english, metaphone_code, parse_dictionary, parsed_dictionary,
};
use crate::strings::{same_str, 
    chars_of, is_alphabetic, is_vowel_letter, push_char, string_of, to_lowercase, unicode_alphabetic,
    unicode_lowercase, vowel_letter, ascii_chars,
};

verus! {

/// Whether a phoneme code names a vowel: vowels are written with a trailing
/// stress digit.
pub open spec fn vowel_code(code: Seq<char>) -> bool {
    code.len() > 0 && (code.last() == '0' || code.last() == '1' || code.last() == '2')
}

/// A phoneme code without its stress digit (`"AE1"` becomes `"AE"`).
pub open spec fn code_base(code: Seq<char>) -> Seq<char> {
    if vowel_code(code) {
        code.drop_last()
    } else {
        code
    }
}

fn is_vowel_code(code: &str) -> (r: bool)
    ensures
        r == vowel_code(code@),
{
    let cs = chars_of(code);
    let n = cs.len();
    n > 0 && (cs[n - 1] == '0' || cs[n - 1] == '1' || cs[n - 1] == '2')
}

fn append_base(out: &mut String, code: &str)
    ensures
        final(out)@ == old(out)@ + code_base(code@),
{
    let cs = chars_of(code);
    let n = cs.len();
    let keep = if n > 0 && (cs[n - 1] == '0' || cs[n - 1] == '1' || cs[n - 1] == '2') { n - 1 } else { n };
    let mut i: usize = 0;
    let ghost start = out@;
    while i < keep
        invariant
            keep <= n == cs@.len(),
            cs@ == code@,
            i <= keep,
            out@ == start + cs@.take(i as int),
        decreases keep - i,
    {
        assert(cs@.take(i + 1) =~= cs@.take(i as int).push(cs@[i as int]));
        push_char(out, cs[i]);
        i = i + 1;
    }
    assert(cs@.take(keep as int) =~= code_base(code@));
}

/// The first vowel position at or after `i` in `codes`, or `codes.len()`.
pub open spec fn next_vowel_code(codes: Seq<Seq<char>>, i: int) -> int
    decreases codes.len() - i,
{
    if i >= codes.len() {
        codes.len() as int
    } else if vowel_code(codes[i]) {
        i
    } else {
        next_vowel_code(codes, i + 1)
    }
}

/// `next_vowel_code` finds the first vowel code at or after `i`, or the end.
pub proof fn lemma_next_vowel_code(codes: Seq<Seq<char>>, i: int)
    requires
        0 <= i,
    ensures
        next_vowel_code(codes, i) <= codes.len(),
        i <= codes.len() ==> i <= next_vowel_code(codes, i),
        next_vowel_code(codes, i) < codes.len() ==> vowel_code(codes[next_vowel_code(codes, i)]),
    decreases codes.len() - i,
{
    if i < codes.len() && !vowel_code(codes[i]) {
        lemma_next_vowel_code(codes, i + 1);
    }
}

/// The syllables whose vowels are at position `i` and after: each runs from
/// its vowel up to (not including) the next vowel.
pub open spec fn syllables_at(codes: Seq<Seq<char>>, i: int) -> Seq<Seq<Seq<char>>>
    decreases codes.len() - i,
{
    if i < 0 || i >= codes.len() {
        Seq::empty()
    } else {
        let n = next_vowel_code(codes, i + 1);
        proof {
            lemma_next_vowel_code(codes, i + 1);
        }
        seq![codes.subrange(i, n)] + syllables_at(codes, n)
    }
}

/// A pronunciation split into syllables, each a vowel with every consonant
/// up to the next vowel (onsets before the first vowel are dropped); a
/// pronunciation without vowels is one syllable.
pub open spec fn syllabify(codes: Seq<Seq<char>>) -> Seq<Seq<Seq<char>>> {
    let first = next_vowel_code(codes, 0);
    if first >= codes.len() {
        seq![codes]
    } else {
        syllables_at(codes, first)
    }
}

/// `parts` joined with `sep` between consecutive parts.
pub open spec fn join(parts: Seq<Seq<char>>, sep: Seq<char>) -> Seq<char>
    decreases parts.len(),
{
    if parts.len() == 0 {
        Seq::empty()
    } else if parts.len() == 1 {
        parts[0]
    } else {
        join(parts.drop_last(), sep) + sep + parts.last()
    }
}

/// The rhyme key of a syllable: its phonemes without stress, joined by `-`.
pub open spec fn rhyme_key(syllable: Seq<Seq<char>>) -> Seq<char> {
    join(syllable.map_values(|c: Seq<char>| code_base(c)), seq!['-'])
}

/// A CMUdict stress digit.
pub open spec fn stress_digit(c: char) -> bool {
    c == '0' || c == '1' || c == '2'
}

/// Two phoneme codes that are the same phoneme, perhaps under different
/// stress: equal, or equal but for a final stress digit on each.
pub open spec fn same_phoneme(a: Seq<char>, b: Seq<char>) -> bool {
    a == b || (a.len() > 0 && b.len() == a.len() && a.drop_last() == b.drop_last() && stress_digit(a.last())
        && stress_digit(b.last()))
}

/// Stress never matters to a rhyme: two syllables made of the same
/// phonemes, whatever stress their vowels carry, have the same rhyme key.
pub proof fn lemma_rhyme_key_ignores_stress(s: Seq<Seq<char>>, t: Seq<Seq<char>>)
    requires
        s.len() == t.len(),
        forall|i: int| 0 <= i < s.len() ==> same_phoneme(#[trigger] s[i], t[i]),
    ensures
        rhyme_key(s) == rhyme_key(t),
{
    assert(s.map_values(|c: Seq<char>| code_base(c)) =~= t.map_values(|c: Seq<char>| code_base(c))) by {
        assert forall|i: int| 0 <= i < s.len() implies code_base(#[trigger] s[i]) == code_base(t[i]) by {
            assert(same_phoneme(s[i], t[i]));
        }
    }
}

/// A rhyme key holds a phoneme's letters without its stress digit: the
/// key of a single vowel code is the code less its final digit.
pub proof fn lemma_rhyme_key_of_vowel(code: Seq<char>)
    requires
        code.len() > 0,
        stress_digit(code.last()),
    ensures
        rhyme_key(seq![code]) == code.drop_last(),
{
    assert(seq![code].map_values(|c: Seq<char>| code_base(c)) =~= seq![code.drop_last()]);
}

fn next_vowel_code_index(codes: &Vec<String>, i: usize) -> (r: usize)
    requires
        i <= codes@.len(),
    ensures
        r == next_vowel_code(codes@.map_values(|c: String| c@), i as int),
{
    let ghost cv = codes@.map_values(|c: String| c@);
    let n = codes.len();
    let mut j = i;
    while j < n && !is_vowel_code(codes[j].as_str())
        invariant
            i <= j <= n,
            n == codes@.len(),
            cv == codes@.map_values(|c: String| c@),
            next_vowel_code(cv, i as int) == next_vowel_code(cv, j as int),
        decreases n - j,
    {
        j = j + 1;
    }
    j
}

/// The rhyme key of the syllable `codes[start..end]`.
fn key_of(codes: &Vec<String>, start: usize, end: usize) -> (r: String)
    requires
        start <= end <= codes@.len(),
    ensures
        r@ == rhyme_key(codes@.map_values(|c: String| c@).subrange(start as int, end as int)),
{
    let ghost cv = codes@.map_values(|c: String| c@);
    let mut out = String::new();
    let mut k = start;
    while k < end
        invariant
            start <= k <= end <= codes@.len(),
            cv == codes@.map_values(|c: String| c@),
            out@ == rhyme_key(cv.subrange(start as int, k as int)),
        decreases end - k,
    {
        let ghost prev = cv.subrange(start as int, k as int);
        let ghost next = cv.subrange(start as int, k + 1);
        assert(next.drop_last() =~= prev);
        assert(next.map_values(|c: Seq<char>| code_base(c)).drop_last()
            =~= prev.map_values(|c: Seq<char>| code_base(c)));
        if k > start {
            push_char(&mut out, '-');
        }
        append_base(&mut out, codes[k].as_str());
        proof {
            if k == start {
                assert(out@ =~= join(next.map_values(|c: Seq<char>| code_base(c)), seq!['-']));
            }
        }
        k = k + 1;
    }
    out
}

/// Splits a pronunciation into syllables and returns each one's rhyme key.
pub fn syllable_keys(codes: &Vec<String>) -> (r: Vec<String>)
    ensures
        r@.map_values(|k: String| k@) == syllabify(codes@.map_values(|c: String| c@)).map_values(
            |s: Seq<Seq<char>>| rhyme_key(s),
        ),
{
    let ghost cv = codes@.map_values(|c: String| c@);
    let n = codes.len();
    let first = next_vowel_code_index(codes, 0);
    proof {
        lemma_next_vowel_code(cv, 0);
    }
    let mut out: Vec<String> = Vec::new();
    if first >= n {
        let k = key_of(codes, 0, n);
        out.push(k);
        assert(cv.subrange(0, n as int) =~= cv);
        assert(out@.map_values(|k: String| k@) =~= syllabify(cv).map_values(|s: Seq<Seq<char>>| rhyme_key(s)));
        return out;
    }
    let mut i = first;
    while i < n
        invariant
            n == codes@.len(),
            cv == codes@.map_values(|c: String| c@),
            i <= n,
            i < n ==> vowel_code(cv[i as int]),
            out@.map_values(|k: String| k@) + syllables_at(cv, i as int).map_values(|s: Seq<Seq<char>>| rhyme_key(s))
                == syllabify(cv).map_values(|s: Seq<Seq<char>>| rhyme_key(s)),
        decreases n - i,
    {
        let next = next_vowel_code_index(codes, i + 1);
        proof {
            lemma_next_vowel_code(cv, i + 1);
        }
        let k = key_of(codes, i, next);
        let ghost before = out@.map_values(|k: String| k@);
        out.push(k);
        proof {
            assert(out@.map_values(|k: String| k@) =~= before.push(k@));
            let rest = syllables_at(cv, next as int);
            assert(syllables_at(cv, i as int) == seq![cv.subrange(i as int, next as int)] + rest);
            assert((seq![cv.subrange(i as int, next as int)] + rest).map_values(|s: Seq<Seq<char>>| rhyme_key(s))
                =~= seq![k@] + rest.map_values(|s: Seq<Seq<char>>| rhyme_key(s)));
        }
        i = next;
    }
    assert(syllables_at(cv, i as int).map_values(|s: Seq<Seq<char>>| rhyme_key(s)) =~= Seq::<Seq<char>>::empty());
    out
}


/// Character spans `(start, end)` of a word, as integers.
pub open spec fn spans_view(v: Seq<(usize, usize)>) -> Seq<(int, int)> {
    v.map_values(|p: (usize, usize)| (p.0 as int, p.1 as int))
}

/// Span starts never decrease.
pub open spec fn spans_ordered(spans: Seq<(int, int)>) -> bool {
    forall|k: int, m: int| 0 <= k < m < spans.len() ==> spans[k].0 <= spans[m].0
}

/// Every span lies within `0..=n` and does not run backwards.
pub open spec fn spans_within(spans: Seq<(int, int)>, n: int) -> bool {
    forall|k: int| 0 <= k < spans.len() ==> 0 <= #[trigger] spans[k].0 <= spans[k].1 <= n
}

/// The positions in `word` where a run of vowel letters starts.
pub open spec fn vowel_run_starts(word: Seq<char>) -> Seq<int>
    decreases word.len(),
{
    if word.len() == 0 {
        Seq::empty()
    } else {
        let i = word.len() - 1;
        let before = vowel_run_starts(word.drop_last());
        if vowel_letter(word[i]) && (i == 0 || !vowel_letter(word[i - 1])) {
            before.push(i)
        } else {
            before
        }
    }
}

proof fn lemma_vowel_run_starts(word: Seq<char>)
    ensures
        forall|k: int| 0 <= k < vowel_run_starts(word).len() ==> 0 <= #[trigger] vowel_run_starts(word)[k] < word.len(),
        forall|k: int, m: int| 0 <= k < m < vowel_run_starts(word).len() ==> vowel_run_starts(word)[k] < vowel_run_starts(word)[m],
    decreases word.len(),
{
    if word.len() > 0 {
        let before = vowel_run_starts(word.drop_last());
        let st = vowel_run_starts(word);
        lemma_vowel_run_starts(word.drop_last());
        assert forall|k: int| 0 <= k < st.len() implies 0 <= #[trigger] st[k] < word.len() by {
            if k < before.len() {
                assert(st[k] == before[k]);
            }
        }
        assert forall|k: int, m: int| 0 <= k < m < st.len() implies st[k] < st[m] by {
            assert(st[k] == before[k]);
            if m < before.len() {
                assert(st[m] == before[m]);
            }
        }
    }
}

/// One span per vowel-letter run, from the run's start to the next run's
/// start (the last one to the end of the word); the whole word when it has
/// no vowel letter.
pub open spec fn initial_vowel_spans(word: Seq<char>) -> Seq<(int, int)> {
    let st = vowel_run_starts(word);
    if st.len() == 0 {
        seq![(0, word.len() as int)]
    } else {
        Seq::new(st.len(), |k: int| (st[k], if k + 1 < st.len() { st[k + 1] } else { word.len() as int }))
    }
}

/// Folds trailing spans into the one before them until at most `target`
/// remain (never fewer than one).
pub open spec fn merge_tail(spans: Seq<(int, int)>, target: int) -> Seq<(int, int)>
    decreases spans.len(),
{
    if spans.len() > target && spans.len() > 1 {
        let last = spans.last();
        let rest = spans.drop_last();
        merge_tail(rest.update(rest.len() - 1, (rest.last().0, last.1)), target)
    } else {
        spans
    }
}

/// Splits the last span in half (the first half rounded down) until there
/// are `target` spans.
pub open spec fn split_tail(spans: Seq<(int, int)>, target: int) -> Seq<(int, int)>
    decreases target - spans.len(),
{
    if spans.len() >= target || spans.len() == 0 {
        spans
    } else {
        let last = spans.last();
        let mid = last.0 + (last.1 - last.0) / 2;
        split_tail(spans.drop_last().push((last.0, mid)).push((mid, last.1)), target)
    }
}

/// The vowel-run estimate of a word's `target` syllable spans: one span per
/// run of vowel letters, merged or split at the end to match `target`.
pub open spec fn vowel_run_spans(word: Seq<char>, target: int) -> Seq<(int, int)> {
    split_tail(merge_tail(initial_vowel_spans(word), target), target)
}

proof fn lemma_merge_tail(spans: Seq<(int, int)>, target: int, n: int)
    requires
        spans.len() >= 1,
        spans_within(spans, n),
        spans_ordered(spans),
    ensures
        spans_within(merge_tail(spans, target), n),
        spans_ordered(merge_tail(spans, target)),
        merge_tail(spans, target).len() == if spans.len() <= target { spans.len() as int } else if target >= 1 { target } else { 1 },
    decreases spans.len(),
{
    if spans.len() > target && spans.len() > 1 {
        let last = spans.last();
        let rest = spans.drop_last();
        let merged = rest.update(rest.len() - 1, (rest.last().0, last.1));
        assert(spans[spans.len() - 2] == rest.last());
        assert(spans[spans.len() - 1] == last);
        assert(spans[spans.len() - 2].0 <= spans[spans.len() - 1].0);
        assert forall|k: int| 0 <= k < merged.len() implies 0 <= #[trigger] merged[k].0 <= merged[k].1 <= n by {
            if k < merged.len() - 1 {
                assert(merged[k] == spans[k]);
            }
        }
        assert forall|k: int, m: int| 0 <= k < m < merged.len() implies merged[k].0 <= merged[m].0 by {
            assert(merged[k].0 == spans[k].0);
            assert(merged[m].0 == spans[m].0);
        }
        lemma_merge_tail(merged, target, n);
    }
}

proof fn lemma_split_tail(spans: Seq<(int, int)>, target: int, n: int)
    requires
        spans.len() >= 1,
        spans_within(spans, n),
    ensures
        spans_within(split_tail(spans, target), n),
        split_tail(spans, target).len() == if spans.len() < target { target } else { spans.len() as int },
    decreases target - spans.len(),
{
    if spans.len() < target {
        let last = spans.last();
        let mid = last.0 + (last.1 - last.0) / 2;
        let next = spans.drop_last().push((last.0, mid)).push((mid, last.1));
        assert(spans[spans.len() - 1] == last);
        assert forall|k: int| 0 <= k < next.len() implies 0 <= #[trigger] next[k].0 <= next[k].1 <= n by {
            if k < spans.len() - 1 {
                assert(next[k] == spans[k]);
            }
        }
        lemma_split_tail(next, target, n);
    }
}

proof fn lemma_initial_vowel_spans(word: Seq<char>)
    ensures
        initial_vowel_spans(word).len() >= 1,
        spans_within(initial_vowel_spans(word), word.len() as int),
        spans_ordered(initial_vowel_spans(word)),
{
    lemma_vowel_run_starts(word);
    let init = initial_vowel_spans(word);
    let st = vowel_run_starts(word);
    assert forall|k: int| 0 <= k < init.len() implies 0 <= #[trigger] init[k].0 <= init[k].1 <= word.len() by {
        if st.len() > 0 && k + 1 < st.len() {
            assert(st[k] < st[k + 1]);
        }
    }
}

/// The vowel-run spans come out `target` strong (one when `target` is
/// zero) and inside the word.
pub proof fn lemma_vowel_run_spans(word: Seq<char>, target: int)
    ensures
        vowel_run_spans(word, target).len() == if target >= 1 { target } else { 1 },
        spans_within(vowel_run_spans(word, target), word.len() as int),
{
    let init = initial_vowel_spans(word);
    lemma_initial_vowel_spans(word);
    lemma_merge_tail(init, target, word.len() as int);
    lemma_split_tail(merge_tail(init, target), target, word.len() as int);
}

/// Splits `word` into `target_count` character spans, each starting at a
/// run of vowel letters and running to the next one; extra runs are folded
/// into the span before them, and missing ones are made by halving the last
/// span. A `target_count` of zero gives the single span the merging leaves.
pub fn vowel_run_syllables(word: &[char], target_count: usize) -> (spans: Vec<(usize, usize)>)
    ensures
        spans_view(spans@) == vowel_run_spans(word@, target_count as int),
        spans@.len() == if target_count >= 1 { target_count } else { 1 },
        spans_within(spans_view(spans@), word@.len() as int),
{
    let n = word.len();
    let mut starts: Vec<usize> = Vec::new();
    let mut prev_vowel = false;
    let mut i: usize = 0;
    while i < n
        invariant
            n == word@.len(),
            i <= n,
            starts@.map_values(|s: usize| s as int) == vowel_run_starts(word@.take(i as int)),
            prev_vowel == (i > 0 && vowel_letter(word@[i - 1])),
        decreases n - i,
    {
        let v = is_vowel_letter(word[i]);
        proof {
            assert(word@.take(i + 1).drop_last() =~= word@.take(i as int));
        }
        if v && !prev_vowel {
            let ghost before = starts@.map_values(|s: usize| s as int);
            starts.push(i);
            assert(starts@.map_values(|s: usize| s as int) =~= before.push(i as int));
        }
        prev_vowel = v;
        i = i + 1;
    }
    assert(word@.take(n as int) =~= word@);
    let ghost st = vowel_run_starts(word@);
    proof {
        lemma_vowel_run_starts(word@);
    }
    let mut spans: Vec<(usize, usize)> = Vec::new();
    if starts.len() == 0 {
        spans.push((0, n));
        assert(spans_view(spans@) =~= initial_vowel_spans(word@));
    } else {
        let m = starts.len();
        let mut k: usize = 0;
        while k < m
            invariant
                m == starts@.len(),
                m == st.len(),
                m > 0,
                st == vowel_run_starts(word@),
                n == word@.len(),
                starts@.map_values(|s: usize| s as int) == st,
                k <= m,
                spans_view(spans@) =~= initial_vowel_spans(word@).take(k as int),
            decreases m - k,
        {
            let end = if k + 1 < m { starts[k + 1] } else { n };
            assert(st[k as int] == starts@[k as int] as int);
            proof {
                if k + 1 < m {
                    assert(st[k + 1] == starts@[k + 1] as int);
                }
            }
            let ghost before = spans_view(spans@);
            spans.push((starts[k], end));
            proof {
                let init = initial_vowel_spans(word@);
                assert(init[k as int] == (st[k as int], if k + 1 < m { st[k + 1] } else { n as int }));
                assert(spans_view(spans@) =~= before.push(init[k as int]));
                assert(init.take(k + 1) =~= init.take(k as int).push(init[k as int]));
            }
            k = k + 1;
        }
        assert(initial_vowel_spans(word@).take(m as int) =~= initial_vowel_spans(word@));
    }
    let target = target_count;
    proof {
        lemma_vowel_run_spans(word@, target as int);
        lemma_initial_vowel_spans(word@);
        lemma_merge_tail(initial_vowel_spans(word@), target as int, n as int);
    }
    while spans.len() > target && spans.len() > 1
        invariant
            spans@.len() >= 1,
            merge_tail(spans_view(spans@), target as int) == merge_tail(initial_vowel_spans(word@), target as int),
        decreases spans.len(),
    {
        let ghost before = spans_view(spans@);
        let last = spans.pop().unwrap();
        let idx = spans.len() - 1;
        let prev = spans[idx];
        spans.set(idx, (prev.0, last.1));
        proof {
            let rest = before.drop_last();
            assert(spans_view(spans@) =~= rest.update(rest.len() - 1, (rest.last().0, before.last().1)));
        }
    }
    assert(merge_tail(spans_view(spans@), target as int) == spans_view(spans@));
    while spans.len() < target
        invariant
            spans@.len() >= 1,
            target >= 1 ==> spans@.len() <= target,
            spans_within(spans_view(spans@), n as int),
            n == word@.len(),
            split_tail(spans_view(spans@), target as int) == vowel_run_spans(word@, target as int),
        decreases target - spans.len(),
    {
        let ghost before = spans_view(spans@);
        let last = spans.pop().unwrap();
        assert(before.last() == (last.0 as int, last.1 as int));
        assert(0 <= before[before.len() - 1].0 <= before[before.len() - 1].1 <= n);
        let mid = last.0 + (last.1 - last.0) / 2;
        spans.push((last.0, mid));
        spans.push((mid, last.1));
        proof {
            assert(spans_view(spans@) =~= before.drop_last().push((last.0 as int, mid as int)).push((mid as int, last.1 as int)));
            assert forall|k: int| 0 <= k < spans_view(spans@).len() implies 0 <= #[trigger] spans_view(spans@)[k].0 <= spans_view(spans@)[k].1 <= n by {
                if k < before.len() - 1 {
                    assert(spans_view(spans@)[k] == before[k]);
                }
            }
        }
    }
    spans
}


/// An ASCII letter, as `char::is_ascii_alphabetic` documents it.
pub open spec fn ascii_alpha(c: char) -> bool {
    ('a' <= c && c <= 'z') || ('A' <= c && c <= 'Z')
}

/// The character span each piece covers when the pieces are laid end to end.
pub open spec fn piece_spans(pieces: Seq<Seq<char>>) -> Seq<(int, int)>
    decreases pieces.len(),
{
    if pieces.len() == 0 {
        Seq::empty()
    } else {
        let start = concat(pieces.drop_last()).len() as int;
        piece_spans(pieces.drop_last()).push((start, start + pieces.last().len()))
    }
}

proof fn lemma_piece_spans(pieces: Seq<Seq<char>>)
    ensures
        piece_spans(pieces).len() == pieces.len(),
        spans_within(piece_spans(pieces), concat(pieces).len() as int),
    decreases pieces.len(),
{
    if pieces.len() > 0 {
        lemma_piece_spans(pieces.drop_last());
        let p = piece_spans(pieces.drop_last());
        assert forall|k: int| 0 <= k < piece_spans(pieces).len() implies 0 <= #[trigger] piece_spans(pieces)[k].0
            <= piece_spans(pieces)[k].1 <= concat(pieces).len() by {
            if k < p.len() {
                assert(piece_spans(pieces)[k] == p[k]);
            }
        }
    }
}

/// The letter spans hyphenation gives `word`, when the word is all ASCII
/// letters and hyphenates into exactly `target` pieces.
pub open spec fn hyphenation_spans(word: Seq<char>, target: int) -> Option<Seq<(int, int)>> {
    if !(forall|i: int| 0 <= i < word.len() ==> ascii_alpha(#[trigger] word[i])) {
        None
    } else if english_hyphenation(word).len() != target {
        None
    } else {
        Some(piece_spans(english_hyphenation(word)))
    }
}

/// Letter spans for `word` from English hyphenation patterns, used when the
/// word is plain ASCII letters and hyphenates into exactly `target_count`
/// pieces; `None` otherwise.
pub fn hyphenation_spans_of(word: &str, target_count: usize) -> (r: Option<Vec<(usize, usize)>>)
    ensures
        r matches Some(v) ==> Some(spans_view(v@)) == hyphenation_spans(word@, target_count as int),
        r is None ==> hyphenation_spans(word@, target_count as int) is None,
        r matches Some(v) ==> spans_within(spans_view(v@), word@.len() as int) && v@.len() == target_count,
{
    let cs = chars_of(word);
    let n = cs.len();
    let mut i: usize = 0;
    while i < n
        invariant
            n == cs@.len(),
            cs@ == word@,
            i <= n,
            forall|k: int| 0 <= k < i ==> ascii_alpha(#[trigger] cs@[k]),
        decreases n - i,
    {
        let c = cs[i];
        if !(('a' <= c && c <= 'z') || ('A' <= c && c <= 'Z')) {
            assert(!ascii_alpha(word@[i as int]));
            return None;
        }
        i = i + 1;
    }
    let pieces = hyphenate_english(word);
    let ghost pv = pieces@.map_values(|p: String| p@);
    if pieces.len() != target_count {
        return None;
    }
    let mut spans: Vec<(usize, usize)> = Vec::new();
    let mut cursor: usize = 0;
    let mut k: usize = 0;
    proof {
        lemma_piece_spans(pv);
    }
    while k < pieces.len()
        invariant
            pv == pieces@.map_values(|p: String| p@),
            concat(pv) == word@,
            n == word@.len(),
            k <= pieces@.len(),
            cursor as int == concat(pv.take(k as int)).len(),
            spans_view(spans@) == piece_spans(pv.take(k as int)),
        decreases pieces.len() - k,
    {
        let len = chars_of(pieces[k].as_str()).len();
        proof {
            assert(pv.take(k + 1).drop_last() =~= pv.take(k as int));
            lemma_concat_prefix(pv, k + 1);
        }
        let ghost before = spans_view(spans@);
        spans.push((cursor, cursor + len));
        assert(spans_view(spans@) =~= before.push((cursor as int, cursor + len)));
        cursor = cursor + len;
        k = k + 1;
    }
    assert(pv.take(k as int) =~= pv);
    Some(spans)
}

proof fn lemma_concat_prefix(pieces: Seq<Seq<char>>, k: int)
    requires
        0 <= k <= pieces.len(),
    ensures
        concat(pieces.take(k)).len() <= concat(pieces).len(),
    decreases pieces.len() - k,
{
    if k == pieces.len() {
        assert(pieces.take(k) =~= pieces);
    } else {
        lemma_concat_prefix(pieces.drop_last(), k);
        assert(pieces.drop_last().take(k) =~= pieces.take(k));
    }
}

/// The number of leading non-vowel letters of `w` (a syllable's onset).
pub open spec fn onset_len(w: Seq<char>) -> nat
    decreases w.len(),
{
    if w.len() > 0 && !vowel_letter(w[0]) {
        1 + onset_len(w.drop_first())
    } else {
        0
    }
}

proof fn lemma_onset_len(w: Seq<char>)
    ensures
        onset_len(w) <= w.len(),
    decreases w.len(),
{
    if w.len() > 0 && !vowel_letter(w[0]) {
        lemma_onset_len(w.drop_first());
    }
}

/// Letter spans for each of `word`'s syllables (at least one): hyphenation
/// when it agrees with the count, the vowel-run estimate otherwise, with
/// the onset consonants of the first syllable trimmed off.
pub open spec fn orthographic_spans(word: Seq<char>, target: int) -> Seq<(int, int)> {
    let t = if target < 1 { 1 } else { target };
    let spans = match hyphenation_spans(word, t) {
        Some(s) => s,
        None => vowel_run_spans(word, t),
    };
    if spans.len() > 0 {
        let f = spans[0];
        spans.update(0, (f.0 + onset_len(word.subrange(f.0, f.1)), f.1))
    } else {
        spans
    }
}

/// Letter spans for each of `word`'s `target_count` syllables (at least
/// one): exactly that many, each inside the word.
pub fn orthographic_syllables(word: &str, target_count: usize) -> (spans: Vec<(usize, usize)>)
    ensures
        spans_view(spans@) == orthographic_spans(word@, target_count as int),
        spans@.len() == if target_count < 1 { 1 } else { target_count },
        spans_within(spans_view(spans@), word@.len() as int),
{
    let t = if target_count < 1 { 1 } else { target_count };
    let cs = chars_of(word);
    let mut spans = match hyphenation_spans_of(word, t) {
        Some(s) => s,
        None => vowel_run_syllables(cs.as_slice(), t),
    };
    let ghost before = spans_view(spans@);
    let first = spans[0];
    assert(0 <= before[0].0 <= before[0].1 <= word@.len());
    let mut onset: usize = 0;
    let mut i = first.0;
    while i < first.1 && !is_vowel_letter(cs[i])
        invariant
            cs@ == word@,
            first.0 <= i <= first.1 <= cs@.len(),
            onset == i - first.0,
            onset_len(word@.subrange(first.0 as int, first.1 as int)) == onset + onset_len(word@.subrange(i as int, first.1 as int)),
        decreases first.1 - i,
    {
        assert(word@.subrange(i as int, first.1 as int).drop_first() =~= word@.subrange(i + 1, first.1 as int));
        onset = onset + 1;
        i = i + 1;
    }
    proof {
        lemma_onset_len(word@.subrange(first.0 as int, first.1 as int));
        if i < first.1 {
            assert(word@.subrange(i as int, first.1 as int)[0] == cs@[i as int]);
        }
    }
    spans.set(0, (first.0 + onset, first.1));
    proof {
        assert(spans_view(spans@) =~= before.update(0, (first.0 + onset_len(word@.subrange(first.0 as int, first.1 as int)), first.1 as int)));
        assert forall|k: int| 0 <= k < spans_view(spans@).len() implies 0 <= #[trigger] spans_view(spans@)[k].0 <= spans_view(spans@)[k].1 <= word@.len() by {
            if k > 0 {
                assert(spans_view(spans@)[k] == before[k]);
            }
        }
    }
    spans
}


/// One syllable's rhyme key plus the character span (into the lowercased
/// word) it covers.
#[derive(Debug)]
pub struct RhymeUnit {
    pub key: String,
    pub start: usize,
    pub end: usize,
}

impl View for RhymeUnit {
    type V = (Seq<char>, int, int);

    open spec fn view(&self) -> (Seq<char>, int, int) {
        (self.key@, self.start as int, self.end as int)
    }
}

/// The CMU pronouncing dictionary the highlighter looks words up in.
pub struct RhymeDictionary {
    dict: cmudict_fast::Cmudict,
}

impl RhymeDictionary {
    /// The words the dictionary knows, with their pronunciations.
    pub closed spec fn entries(&self) -> Map<Seq<char>, Seq<Seq<Seq<char>>>> {
        dictionary_entries(self.dict)
    }

    /// Parses a dictionary in the CMU text format: `Some` exactly when the
    /// text parses, holding what it parses to.
    pub fn from_text(text: &str) -> (r: Option<RhymeDictionary>)
        ensures
            r is Some <==> parsed_dictionary(text@) is Some,
            r matches Some(d) ==> d.entries() == parsed_dictionary(text@)->0,
    {
        match parse_dictionary(text) {
            Some(dict) => Some(RhymeDictionary { dict }),
            None => None,
        }
    }

    /// The first pronunciation listed for `word`, if any.
    fn first_pronunciation(&self, word: &str) -> (r: Option<Vec<String>>)
        ensures
            r is Some <==> (self.entries().contains_key(word@) && self.entries()[word@].len() > 0),
            r matches Some(codes) ==> codes@.map_values(|c: String| c@) == self.entries()[word@][0],
    {
        match pronunciations(&self.dict, word) {
            Some(mut ps) => {
                if ps.len() > 0 {
                    Some(ps.remove(0))
                } else {
                    None
                }
            },
            None => None,
        }
    }
}

/// The units of a dictionary word: each syllable with a non-empty letter
/// span, keyed, in syllable order (the first `k` syllables considered).
pub open spec fn keyed_units(keys: Seq<Seq<char>>, spans: Seq<(int, int)>, k: int) -> Seq<(Seq<char>, int, int)>
    decreases k,
{
    if k <= 0 {
        Seq::empty()
    } else {
        let before = keyed_units(keys, spans, k - 1);
        let sp = spans[k - 1];
        if sp.1 > sp.0 {
            before.push((keys[k - 1], sp.0, sp.1))
        } else {
            before
        }
    }
}

/// Where the last run of vowel letters in `s` starts (0 if there is none).
pub open spec fn last_run_start(s: Seq<char>) -> int {
    let st = vowel_run_starts(s);
    if st.len() == 0 { 0 } else { st.last() }
}

/// Every character is ASCII.
pub open spec fn ascii_text(s: Seq<char>) -> bool {
    forall|i: int| 0 <= i < s.len() ==> (#[trigger] s[i] as u32) < 128
}

/// The rhymeable syllables of `word`. The lowercased word is looked up in
/// the dictionary: a known word yields one unit per syllable of its first
/// pronunciation (keyed by `rhyme_key`, spanned by `orthographic_spans`,
/// empty spans dropped). An unknown word yields a single unit keyed
/// `dm:` plus the double-metaphone code of the word from its last vowel
/// run on, covering that tail, when the tail is ASCII. A word without any
/// letter yields nothing.
pub open spec fn word_rhyme_units(entries: Map<Seq<char>, Seq<Seq<Seq<char>>>>, word: Seq<char>) -> Seq<
    (Seq<char>, int, int),
> {
    let lower = unicode_lowercase(word);
    if !(exists|i: int| 0 <= i < lower.len() && unicode_alphabetic(#[trigger] lower[i])) {
        Seq::empty()
    } else if entries.contains_key(lower) && entries[lower].len() > 0 {
        let syls = syllabify(entries[lower][0]);
        let keys = syls.map_values(|s: Seq<Seq<char>>| rhyme_key(s));
        let spans = orthographic_spans(lower, syls.len() as int);
        keyed_units(keys, spans, if keys.len() < spans.len() { keys.len() as int } else { spans.len() as int })
    } else {
        let start = last_run_start(lower);
        let tail = lower.skip(start);
        if tail.len() == 0 || !ascii_text(tail) {
            Seq::empty()
        } else {
            seq![("dm:"@ + double_metaphone(tail), start, lower.len() as int)]
        }
    }
}

/// Every unit's span lies inside a word of `n` characters and is not empty.
pub open spec fn units_within(units: Seq<(Seq<char>, int, int)>, n: int) -> bool {
    forall|k: int| 0 <= k < units.len() ==> 0 <= #[trigger] units[k].1 < units[k].2 <= n
}

proof fn lemma_keyed_units(keys: Seq<Seq<char>>, spans: Seq<(int, int)>, k: int, n: int)
    requires
        0 <= k <= spans.len(),
        k <= keys.len(),
        spans_within(spans, n),
    ensures
        units_within(keyed_units(keys, spans, k), n),
    decreases k,
{
    if k > 0 {
        lemma_keyed_units(keys, spans, k - 1, n);
        let before = keyed_units(keys, spans, k - 1);
        assert(0 <= spans[k - 1].0 <= spans[k - 1].1 <= n);
        assert forall|m: int| 0 <= m < keyed_units(keys, spans, k).len() implies 0 <= #[trigger] keyed_units(
            keys,
            spans,
            k,
        )[m].1 < keyed_units(keys, spans, k)[m].2 <= n by {
            if m < before.len() {
                assert(keyed_units(keys, spans, k)[m] == before[m]);
            }
        }
    }
}

impl RhymeDictionary {
    /// Every rhymeable syllable in `word` (see `word_rhyme_units`); each
    /// unit's span is non-empty and inside the lowercased word, so inside the
    /// word itself whenever lowercasing does not lengthen it, as for every
    /// ASCII word (every dictionary word).
    pub fn rhyme_units(&self, word: &str) -> (units: Vec<RhymeUnit>)
        ensures
            units@.map_values(|u: RhymeUnit| u@) == word_rhyme_units(self.entries(), word@),
            units_within(word_rhyme_units(self.entries(), word@), unicode_lowercase(word@).len() as int),
            unicode_lowercase(word@).len() <= word@.len() ==> units_within(word_rhyme_units(self.entries(), word@), word@.len() as int),
            ascii_chars(word@) ==> unicode_lowercase(word@).len() == word@.len(),
    {
        let lower = to_lowercase(word);
        assert(lower@ == unicode_lowercase(word@));
        let lc = chars_of(lower.as_str());
        let n = lc.len();
        let mut any_alpha = false;
        let mut i: usize = 0;
        while i < n
            invariant
                n == lc@.len(),
                lc@ == lower@,
                i <= n,
                any_alpha == (exists|k: int| 0 <= k < i && unicode_alphabetic(#[trigger] lc@[k])),
            decreases n - i,
        {
            if is_alphabetic(lc[i]) {
                any_alpha = true;
            }
            i = i + 1;
        }
        if !any_alpha {
            return Vec::new();
        }
        match self.first_pronunciation(lower.as_str()) {
            Some(codes) => {
                let keys = syllable_keys(&codes);
                let spans = orthographic_syllables(lower.as_str(), keys.len());
                let ghost kv = keys@.map_values(|k: String| k@);
                let ghost sv = spans_view(spans@);
                let limit = if keys.len() < spans.len() { keys.len() } else { spans.len() };
                let mut out: Vec<RhymeUnit> = Vec::new();
                let mut k: usize = 0;
                while k < limit
                    invariant
                        limit <= keys@.len(),
                        limit <= spans@.len(),
                        kv.len() == keys@.len(),
                        kv == keys@.map_values(|k: String| k@),
                        sv == spans_view(spans@),
                        k <= limit,
                        out@.map_values(|u: RhymeUnit| u@) == keyed_units(kv, sv, k as int),
                    decreases limit - k,
                {
                    let (s, e) = spans[k];
                    let key = keys[k].clone();
                    let ghost before = out@.map_values(|u: RhymeUnit| u@);
                    if e > s {
                        out.push(RhymeUnit { key, start: s, end: e });
                        assert(out@.map_values(|u: RhymeUnit| u@) =~= before.push((kv[k as int], s as int, e as int)));
                    }
                    k = k + 1;
                }
                proof {
                    lemma_keyed_units(kv, sv, limit as int, lower@.len() as int);
                }
                out
            }
            None => {
                let mut start: usize = 0;
                let mut prev_vowel = false;
                let mut j: usize = 0;
                let ghost st_all = vowel_run_starts(lc@);
                proof {
                    lemma_vowel_run_starts(lc@);
                }
                while j < n
                    invariant
                        n == lc@.len(),
                        j <= n,
                        start as int == last_run_start(lc@.take(j as int)),
                        prev_vowel == (j > 0 && vowel_letter(lc@[j - 1])),
                    decreases n - j,
                {
                    let v = is_vowel_letter(lc[j]);
                    assert(lc@.take(j + 1).drop_last() =~= lc@.take(j as int));
                    if v && !prev_vowel {
                        start = j;
                    }
                    prev_vowel = v;
                    j = j + 1;
                }
                assert(lc@.take(n as int) =~= lc@);
                proof {
                    lemma_vowel_run_starts(lc@);
                    if vowel_run_starts(lc@).len() > 0 {
                        assert(0 <= vowel_run_starts(lc@)[vowel_run_starts(lc@).len() - 1] < n);
                    }
                }
                let mut tail: Vec<char> = Vec::new();
                let mut ascii = true;
                let mut m = start;
                while m < n
                    invariant
                        start <= m <= n,
                        n == lc@.len(),
                        tail@ == lc@.subrange(start as int, m as int),
                        ascii == (forall|q: int| 0 <= q < tail@.len() ==> (#[trigger] tail@[q] as u32) < 128),
                    decreases n - m,
                {
                    let c = lc[m];
                    if (c as u32) >= 128 {
                        ascii = false;
                    }
                    let ghost before = tail@;
                    tail.push(c);
                    proof {
                        assert(tail@ =~= before.push(c));
                        if ascii {
                            assert forall|q: int| 0 <= q < tail@.len() implies (#[trigger] tail@[q] as u32) < 128 by {
                                if q < before.len() {
                                    assert(tail@[q] == before[q]);
                                }
                            }
                        } else {
                            if (c as u32) >= 128 {
                                assert(tail@[tail@.len() - 1] == c);
                            } else {
                                let q = choose|q: int| 0 <= q < before.len() && !((before[q] as u32) < 128);
                                assert(tail@[q] == before[q]);
                            }
                        }
                    }
                    m = m + 1;
                }
                assert(tail@ =~= lc@.skip(start as int));
                if tail.len() == 0 || !ascii {
                    return Vec::new();
                }
                let tail_str = string_of(tail.as_slice());
                let code = metaphone_code(tail_str.as_str());
                let mut key = String::from_str("dm:");
                key.append(code.as_str());
                let mut out: Vec<RhymeUnit> = Vec::new();
                out.push(RhymeUnit { key, start, end: n });
                assert(out@.map_values(|u: RhymeUnit| u@) =~= seq![(key@, start as int, n as int)]);
                out
            }
        }
    }
}


/// Common function/filler words left out of rhyme matching.
pub const STOPWORDS: [&'static str; 118] = [
    "a", "an", "the", "of", "in", "on", "at", "to", "is", "it", "if", "as", "so", "no", "do", "be", "by", "or", "up",
    "we", "he", "she", "i", "my", "me", "you", "your", "am", "are", "was", "were", "been", "being", "and", "but",
    "for", "nor", "yet", "with", "from", "into", "onto", "than", "then", "this", "that", "these", "those", "there",
    "their", "they", "them", "its", "his", "her", "him", "our", "us", "oh", "ah", "uh", "well", "just", "not",
    "all", "any", "can", "could", "would", "should", "will", "shall", "may", "might", "must", "did", "does",
    "done", "had", "has", "have", "let", "get", "got", "go", "goes", "one", "two", "out", "off", "down", "over",
    "under", "again", "also", "too", "very", "much", "some", "such", "same", "own", "each", "every", "both", "few",
    "more", "most", "other", "only", "which", "who", "whom", "what", "when", "where", "why", "how",
];

/// Whether `w` is one of the `STOPWORDS`.
pub open spec fn is_stopword(w: Seq<char>) -> bool {
    exists|i: int| 0 <= i < STOPWORDS@.len() && (#[trigger] STOPWORDS@[i])@ == w
}

/// Whether `word` is one of the `STOPWORDS`.
pub fn stopword(word: &str) -> (r: bool)
    ensures
        r == is_stopword(word@),
{
    let mut i: usize = 0;
    while i < STOPWORDS.len()
        invariant
            i <= STOPWORDS@.len(),
            forall|k: int| 0 <= k < i ==> (#[trigger] STOPWORDS@[k])@ != word@,
        decreases STOPWORDS.len() - i,
    {
        if same_str(STOPWORDS[i], word) {
            return true;
        }
        i = i + 1;
    }
    false
}

/// A word of the document: its character offsets and text.
pub struct WordSpan {
    pub start: usize,
    pub end: usize,
    pub text: String,
}

/// The tokenizer's state after reading `s`: the finished words' spans and
/// where the word being read started, if one is open. A word is a run of
/// alphabetic characters, with apostrophes allowed after its first letter.
pub open spec fn scan_words(s: Seq<char>) -> (Seq<(int, int)>, Option<int>)
    decreases s.len(),
{
    if s.len() == 0 {
        (Seq::empty(), None)
    } else {
        let prev = scan_words(s.drop_last());
        let i = s.len() - 1;
        let c = s[i];
        let is_word_char = unicode_alphabetic(c) || (c == '\'' && prev.1 is Some);
        if is_word_char {
            (prev.0, if prev.1 is Some { prev.1 } else { Some(i as int) })
        } else {
            match prev.1 {
                Some(st) => (prev.0.push((st, i as int)), None),
                None => (prev.0, None),
            }
        }
    }
}

/// The character spans of the words of `s`, in order.
pub open spec fn word_spans(s: Seq<char>) -> Seq<(int, int)> {
    let st = scan_words(s);
    match st.1 {
        Some(start) => st.0.push((start, s.len() as int)),
        None => st.0,
    }
}

proof fn lemma_scan_words(s: Seq<char>)
    ensures
        forall|k: int| 0 <= k < scan_words(s).0.len() ==> 0 <= #[trigger] scan_words(s).0[k].0 < scan_words(s).0[k].1 <= s.len(),
        scan_words(s).1 matches Some(st) ==> 0 <= st < s.len(),
    decreases s.len(),
{
    if s.len() > 0 {
        lemma_scan_words(s.drop_last());
        let prev = scan_words(s.drop_last());
        assert forall|k: int| 0 <= k < scan_words(s).0.len() implies 0 <= #[trigger] scan_words(s).0[k].0 < scan_words(s).0[k].1 <= s.len() by {
            if k < prev.0.len() {
                assert(scan_words(s).0[k] == prev.0[k]);
            }
        }
    }
}

/// Splits `text` into words (see `scan_words`), with character offsets.
#[verifier::rlimit(40)]
pub fn tokenize(text: &str) -> (spans: Vec<WordSpan>)
    ensures
        spans@.len() == word_spans(text@).len(),
        forall|k: int| 0 <= k < spans@.len() ==> (spans@[k].start as int, spans@[k].end as int) == #[trigger] word_spans(text@)[k]
            && spans@[k].text@ == text@.subrange(spans@[k].start as int, spans@[k].end as int),
        forall|k: int| 0 <= k < spans@.len() ==> #[trigger] spans@[k].start < spans@[k].end <= text@.len(),
{
    let cs = chars_of(text);
    let n = cs.len();
    let mut spans: Vec<WordSpan> = Vec::new();
    let mut start: Option<usize> = None;
    let mut current: Vec<char> = Vec::new();
    let mut i: usize = 0;
    while i < n
        invariant
            n == cs@.len(),
            cs@ == text@,
            i <= n,
            spans@.len() == scan_words(cs@.take(i as int)).0.len(),
            forall|k: int| 0 <= k < spans@.len() ==> (spans@[k].start as int, spans@[k].end as int) == #[trigger] scan_words(cs@.take(i as int)).0[k]
                && spans@[k].text@ == cs@.subrange(spans@[k].start as int, spans@[k].end as int),
            forall|k: int| 0 <= k < spans@.len() ==> #[trigger] spans@[k].start < spans@[k].end <= n,
            match start {
                Some(st) => scan_words(cs@.take(i as int)).1 == Some(st as int) && current@ == cs@.subrange(st as int, i as int) && st < i,
                None => scan_words(cs@.take(i as int)).1 is None,
            },
        decreases n - i,
    {
        let c = cs[i];
        let ghost spans_at_start = spans@;
        proof {
            assert(cs@.take(i + 1).drop_last() =~= cs@.take(i as int));
            lemma_scan_words(cs@.take(i as int));
        }
        let is_word_char = is_alphabetic(c) || (c == '\'' && start.is_some());
        if is_word_char {
            if start.is_none() {
                start = Some(i);
                current = Vec::new();
            }
            current.push(c);
            proof {
                let st = start.unwrap();
                assert(current@ =~= cs@.subrange(st as int, i + 1));
            }
        } else if start.is_some() {
            let s = start.unwrap();
            let word = string_of(current.as_slice());
            let ghost before = spans@;
            spans.push(WordSpan { start: s, end: i, text: word });
            proof {
                assert(scan_words(cs@.take(i + 1)).0 == scan_words(cs@.take(i as int)).0.push((s as int, i as int)));
                assert forall|k: int| 0 <= k < spans@.len() implies (spans@[k].start as int, spans@[k].end as int) == #[trigger] scan_words(cs@.take(i + 1)).0[k]
                    && spans@[k].text@ == cs@.subrange(spans@[k].start as int, spans@[k].end as int) by {
                    if k < before.len() {
                        assert(spans@[k] == before[k]);
                    }
                }
                assert forall|k: int| 0 <= k < spans@.len() implies #[trigger] spans@[k].start < spans@[k].end <= n by {
                    if k < before.len() {
                        assert(spans@[k] == before[k]);
                    }
                }
            }
            start = None;
            current = Vec::new();
        }
        proof {
            assert forall|k: int| 0 <= k < spans@.len() implies #[trigger] spans@[k].start < spans@[k].end <= n by {
                if spans@.len() == spans_at_start.len() {
                    assert(spans@[k] == spans_at_start[k]);
                }
            }
        }
        i = i + 1;
    }
    assert(cs@.take(n as int) =~= cs@);
    proof {
        lemma_scan_words(cs@);
    }
    assert(cs@ == text@);
    if start.is_some() {
        let s = start.unwrap();
        let word = string_of(current.as_slice());
        let ghost before = spans@;
        spans.push(WordSpan { start: s, end: n, text: word });
        proof {
            assert forall|k: int| 0 <= k < spans@.len() implies (spans@[k].start as int, spans@[k].end as int) == #[trigger] word_spans(text@)[k]
                && spans@[k].text@ == text@.subrange(spans@[k].start as int, spans@[k].end as int) by {
                if k < before.len() {
                    assert(spans@[k] == before[k]);
                }
            }
        }
    }
    spans
}


/// A rhyme unit placed in the document: its key and character span.
pub type PlacedUnit = (Seq<char>, int, int);

/// `units` moved `base` characters to the right; a unit whose end would
/// not fit a `usize` offset is left out.
pub open spec fn shift_units(units: Seq<PlacedUnit>, base: int) -> Seq<PlacedUnit>
    decreases units.len(),
{
    if units.len() == 0 {
        Seq::empty()
    } else {
        let rest = shift_units(units.drop_last(), base);
        let u = units.last();
        if base + u.2 <= usize::MAX {
            rest.push((u.0, base + u.1, base + u.2))
        } else {
            rest
        }
    }
}

/// The units one word of the document contributes: none for a word of
/// fewer than two characters or a stopword, else its rhyme units at
/// document offsets.
pub open spec fn span_units(entries: Map<Seq<char>, Seq<Seq<Seq<char>>>>, text: Seq<char>, sp: (int, int)) -> Seq<
    PlacedUnit,
> {
    let w = text.subrange(sp.0, sp.1);
    if sp.1 - sp.0 < 2 || is_stopword(unicode_lowercase(w)) {
        Seq::empty()
    } else {
        shift_units(word_rhyme_units(entries, w), sp.0)
    }
}

/// The units of the first `k` words of `spans`, in document order.
pub open spec fn units_of_words(
    entries: Map<Seq<char>, Seq<Seq<Seq<char>>>>,
    text: Seq<char>,
    spans: Seq<(int, int)>,
    k: int,
) -> Seq<PlacedUnit>
    decreases k,
{
    if k <= 0 {
        Seq::empty()
    } else {
        units_of_words(entries, text, spans, k - 1) + span_units(entries, text, spans[k - 1])
    }
}

/// Every rhyme unit of the document, in reading order.
pub open spec fn document_units(entries: Map<Seq<char>, Seq<Seq<Seq<char>>>>, text: Seq<char>) -> Seq<PlacedUnit> {
    units_of_words(entries, text, word_spans(text), word_spans(text).len() as int)
}

/// Letter case never matters to a word's units: two texts whose words at
/// `sp` lowercase alike (say "My" and "my") give the same units there, so a
/// capitalised stopword is left out just as the lowercase one is.
pub proof fn lemma_span_units_case_blind(
    entries: Map<Seq<char>, Seq<Seq<Seq<char>>>>,
    t1: Seq<char>,
    t2: Seq<char>,
    sp: (int, int),
)
    requires
        unicode_lowercase(t1.subrange(sp.0, sp.1)) == unicode_lowercase(t2.subrange(sp.0, sp.1)),
    ensures
        span_units(entries, t1, sp) == span_units(entries, t2, sp),
{
}

/// A word whose lowercase form is a stopword contributes no unit.
pub proof fn lemma_stopword_spans_give_no_units(
    entries: Map<Seq<char>, Seq<Seq<Seq<char>>>>,
    text: Seq<char>,
    sp: (int, int),
)
    requires
        is_stopword(unicode_lowercase(text.subrange(sp.0, sp.1))),
    ensures
        span_units(entries, text, sp) == Seq::<PlacedUnit>::empty(),
{
}

proof fn lemma_units_of_words_case_blind(
    entries: Map<Seq<char>, Seq<Seq<Seq<char>>>>,
    t1: Seq<char>,
    t2: Seq<char>,
    spans: Seq<(int, int)>,
    k: int,
)
    requires
        k <= spans.len(),
        forall|j: int| 0 <= j < spans.len() ==> unicode_lowercase(t1.subrange((#[trigger] spans[j]).0, spans[j].1))
            == unicode_lowercase(t2.subrange(spans[j].0, spans[j].1)),
    ensures
        units_of_words(entries, t1, spans, k) == units_of_words(entries, t2, spans, k),
    decreases k,
{
    if k > 0 {
        lemma_units_of_words_case_blind(entries, t1, t2, spans, k - 1);
        lemma_span_units_case_blind(entries, t1, t2, spans[k - 1]);
    }
}

/// Changing the case of a document's letters changes none of its rhyme
/// units (and so none of its groups), as long as the words stay where they
/// were: grouping reads each word in lowercase.
pub proof fn lemma_document_units_case_blind(entries: Map<Seq<char>, Seq<Seq<Seq<char>>>>, t1: Seq<char>, t2: Seq<char>)
    requires
        word_spans(t1) == word_spans(t2),
        forall|j: int| 0 <= j < word_spans(t1).len() ==> unicode_lowercase(
            t1.subrange((#[trigger] word_spans(t1)[j]).0, word_spans(t1)[j].1),
        ) == unicode_lowercase(t2.subrange(word_spans(t1)[j].0, word_spans(t1)[j].1)),
    ensures
        document_units(entries, t1) == document_units(entries, t2),
        grouped(document_units(entries, t1)) == grouped(document_units(entries, t2)),
{
    let spans = word_spans(t1);
    assert forall|j: int| 0 <= j < spans.len() implies unicode_lowercase(t1.subrange((#[trigger] spans[j]).0, spans[j].1))
        == unicode_lowercase(t2.subrange(spans[j].0, spans[j].1)) by {
        assert(spans[j] == word_spans(t1)[j]);
    }
    lemma_units_of_words_case_blind(entries, t1, t2, spans, spans.len() as int);
}

/// The distinct keys of `units`, in the order each first appears.
pub open spec fn keys_in_order(units: Seq<PlacedUnit>) -> Seq<Seq<char>>
    decreases units.len(),
{
    if units.len() == 0 {
        Seq::empty()
    } else {
        let before = keys_in_order(units.drop_last());
        if before.contains(units.last().0) {
            before
        } else {
            before.push(units.last().0)
        }
    }
}

/// The spans of the units keyed `key`, in order.
pub open spec fn members(units: Seq<PlacedUnit>, key: Seq<char>) -> Seq<(int, int)>
    decreases units.len(),
{
    if units.len() == 0 {
        Seq::empty()
    } else {
        let before = members(units.drop_last(), key);
        let u = units.last();
        if u.0 == key {
            before.push((u.1, u.2))
        } else {
            before
        }
    }
}

/// The rhyme groups of `units`: one per distinct key, in first-appearance
/// order, each with the spans of the units sharing that key.
pub open spec fn grouped(units: Seq<PlacedUnit>) -> Seq<(Seq<char>, Seq<(int, int)>)> {
    keys_in_order(units).map_values(|k: Seq<char>| (k, members(units, k)))
}

/// Grouping is a partition by key: the keys are distinct, every unit's key
/// has a group, and every group has at least one member.
pub proof fn lemma_grouping_partitions(units: Seq<PlacedUnit>)
    ensures
        keys_in_order(units).no_duplicates(),
        forall|i: int| 0 <= i < units.len() ==> keys_in_order(units).contains(#[trigger] units[i].0),
        forall|g: int| 0 <= g < keys_in_order(units).len() ==> #[trigger] members(units, keys_in_order(units)[g]).len() >= 1,
    decreases units.len(),
{
    if units.len() > 0 {
        let prev = units.drop_last();
        lemma_grouping_partitions(prev);
        let ks = keys_in_order(units);
        let pk = keys_in_order(prev);
        assert forall|i: int| 0 <= i < units.len() implies ks.contains(#[trigger] units[i].0) by {
            if i < prev.len() {
                assert(prev[i] == units[i]);
                assert(pk.contains(prev[i].0));
                if !pk.contains(units.last().0) {
                    let j = choose|j: int| 0 <= j < pk.len() && pk[j] == prev[i].0;
                    assert(ks[j] == pk[j]);
                }
            } else {
                if !pk.contains(units.last().0) {
                    assert(ks[ks.len() - 1] == units.last().0);
                }
            }
        }
        assert forall|g: int| 0 <= g < ks.len() implies #[trigger] members(units, ks[g]).len() >= 1 by {
            if g < pk.len() {
                assert(ks[g] == pk[g]);
                assert(members(prev, pk[g]).len() >= 1);
            }
        }
    }
}

proof fn lemma_members_prefix(units: Seq<PlacedUnit>, key: Seq<char>)
    requires
        !keys_in_order(units).contains(key),
    ensures
        members(units, key) == Seq::<(int, int)>::empty(),
    decreases units.len(),
{
    if units.len() > 0 {
        let prev = units.drop_last();
        if keys_in_order(prev).contains(key) {
            let j = choose|j: int| 0 <= j < keys_in_order(prev).len() && keys_in_order(prev)[j] == key;
            if keys_in_order(prev).contains(units.last().0) {
                assert(keys_in_order(units)[j] == key);
            } else {
                assert(keys_in_order(units)[j] == key);
            }
        }
        lemma_members_prefix(prev, key);
        if units.last().0 == key {
            if keys_in_order(prev).contains(units.last().0) {
            } else {
                assert(keys_in_order(units)[keys_in_order(units).len() - 1] == key);
            }
        }
    }
}

/// The groups of a document as they are being collected: one key and
/// member list per group.
pub struct RhymeGrouping {
    keys: Vec<String>,
    groups: Vec<Vec<(usize, usize)>>,
}

impl View for RhymeGrouping {
    type V = Seq<(Seq<char>, Seq<(int, int)>)>;

    closed spec fn view(&self) -> Seq<(Seq<char>, Seq<(int, int)>)> {
        Seq::new(self.keys@.len(), |g: int| (self.keys@[g]@, spans_view(self.groups@[g]@)))
    }
}

impl RhymeGrouping {
    closed spec fn wf(&self) -> bool {
        self.keys@.len() == self.groups@.len()
    }

    fn new() -> (r: RhymeGrouping)
        ensures
            r.wf(),
            r@ == grouped(Seq::empty()),
    {
        let r = RhymeGrouping { keys: Vec::new(), groups: Vec::new() };
        assert(r@ =~= grouped(Seq::empty()));
        r
    }

    /// Adds one unit: to its key's group, or as a new group at the end.
    fn add(&mut self, key: String, start: usize, end: usize, Ghost(seen): Ghost<Seq<PlacedUnit>>)
        requires
            old(self).wf(),
            old(self)@ == grouped(seen),
        ensures
            final(self).wf(),
            final(self)@ == grouped(seen.push((key@, start as int, end as int))),
    {
        let ghost u = seen.push((key@, start as int, end as int));
        let ghost ks = keys_in_order(seen);
        proof {
            lemma_grouping_partitions(seen);
            assert(u.drop_last() =~= seen);
            assert(u.last().0 == key@);
            assert(self@.len() == self.keys@.len());
            assert(grouped(seen).len() == ks.len());
            assert(self.keys@.len() == ks.len());
            assert forall|g: int| 0 <= g < ks.len() implies #[trigger] self.keys@[g]@ == ks[g] by {
                assert(self@[g] == grouped(seen)[g]);
            }
        }
        let mut g: usize = 0;
        while g < self.keys.len()
            invariant
                self.wf(),
                self@ == grouped(seen),
                u == seen.push((key@, start as int, end as int)),
                u.drop_last() == seen,
                ks == keys_in_order(seen),
                ks.no_duplicates(),
                self.keys@.len() == ks.len(),
                g <= self.keys@.len(),
                forall|m: int| 0 <= m < g ==> #[trigger] ks[m] != key@,
                forall|m: int| 0 <= m < ks.len() ==> #[trigger] self.keys@[m]@ == ks[m],
            decreases self.keys.len() - g,
        {
            if same_str(self.keys[g].as_str(), key.as_str()) {
                let ghost before = self@;
                self.groups[g].push((start, end));
                proof {
                    assert(ks[g as int] == key@);
                    assert(ks.contains(key@));
                    assert(u.last().0 == key@);
                    assert(keys_in_order(u) == ks);
                    assert forall|m: int| 0 <= m < ks.len() implies #[trigger] self@[m] == grouped(u)[m] by {
                        if m != g {
                            assert(ks[m] != ks[g as int]);
                            assert(self@[m] == before[m]);
                            assert(before[m] == grouped(seen)[m]);
                        } else {
                            assert(self@[m].1 =~= before[m].1.push((start as int, end as int)));
                            assert(before[m] == grouped(seen)[m]);
                        }
                    }
                    assert(self@ =~= grouped(u));
                }
                return;
            }
            g = g + 1;
        }
        let ghost before = self@;
        let mut fresh: Vec<(usize, usize)> = Vec::new();
        fresh.push((start, end));
        self.keys.push(key);
        self.groups.push(fresh);
        proof {
            assert(!ks.contains(key@));
            assert(keys_in_order(u) == ks.push(key@));
            lemma_members_prefix(seen, key@);
            assert forall|m: int| 0 <= m < ks.len() + 1 implies #[trigger] self@[m] == grouped(u)[m] by {
                if m < ks.len() {
                    assert(ks[m] != key@);
                    assert(self@[m] == before[m]);
                    assert(before[m] == grouped(seen)[m]);
                } else {
                    assert(members(u, key@) =~= seq![(start as int, end as int)]);
                    assert(spans_view(self.groups@[m]@) =~= seq![(start as int, end as int)]);
                }
            }
            assert(self@ =~= grouped(u));
        }
    }

    /// The member spans of each group, in group order.
    fn into_groups(self) -> (r: Vec<Vec<(usize, usize)>>)
        requires
            self.wf(),
        ensures
            r@.len() == self@.len(),
            forall|g: int| 0 <= g < r@.len() ==> spans_view(#[trigger] r@[g]@) == self@[g].1,
    {
        self.groups
    }
}


/// `tokens` are the words at `spans` in `text`, in order.
pub open spec fn tokens_match(tokens: Seq<WordSpan>, spans: Seq<(int, int)>, text: Seq<char>) -> bool {
    &&& tokens.len() == spans.len()
    &&& forall|m: int| 0 <= m < tokens.len() ==> (tokens[m].start as int, tokens[m].end as int) == #[trigger] spans[m]
        && tokens[m].text@ == text.subrange(tokens[m].start as int, tokens[m].end as int)
        && tokens[m].start < tokens[m].end <= text.len()
}

impl RhymeDictionary {
    /// The rhyme groups of `text`: every rhyme unit of every word that is at
    /// least two characters long and not a stopword, grouped by key in
    /// first-appearance order (see `grouped` and `document_units`).
    pub fn rhyme_groups(&self, text: &str) -> (r: Vec<Vec<(usize, usize)>>)
        ensures
            r@.len() == grouped(document_units(self.entries(), text@)).len(),
            forall|g: int| 0 <= g < r@.len() ==> spans_view(#[trigger] r@[g]@) == grouped(
                document_units(self.entries(), text@),
            )[g].1,
    {
        let tokens = tokenize(text);
        let ghost ws = word_spans(text@);
        assert forall|m: int| 0 <= m < tokens@.len() implies (tokens@[m].start as int, tokens@[m].end as int) == #[trigger] ws[m]
            && tokens@[m].text@ == text@.subrange(tokens@[m].start as int, tokens@[m].end as int)
            && tokens@[m].start < tokens@[m].end <= text@.len() by {
            assert((tokens@[m].start as int, tokens@[m].end as int) == word_spans(text@)[m]);
            assert(tokens@[m].start < tokens@[m].end <= text@.len());
        }
        assert(tokens_match(tokens@, ws, text@));
        let ghost entries = self.entries();
        let mut grouping = RhymeGrouping::new();
        let ghost mut seen: Seq<PlacedUnit> = Seq::empty();
        let mut k: usize = 0;
        while k < tokens.len()
            invariant
                ws == word_spans(text@),
                entries == self.entries(),
                tokens_match(tokens@, ws, text@),
                k <= tokens@.len(),
                grouping.wf(),
                grouping@ == grouped(seen),
                seen == units_of_words(entries, text@, ws, k as int),
            decreases tokens.len() - k,
        {
            let sp = &tokens[k];
            assert(tokens@[k as int] == *sp);
            assert(ws[k as int] == (tokens@[k as int].start as int, tokens@[k as int].end as int));
            assert(sp.start < sp.end);
            let ghost w = text@.subrange(sp.start as int, sp.end as int);
            assert(ws[k as int] == (sp.start as int, sp.end as int));
            let skip = if sp.end - sp.start < 2 {
                true
            } else {
                let lower = to_lowercase(sp.text.as_str());
                stopword(lower.as_str())
            };
            if skip {
                assert(span_units(entries, text@, ws[k as int]) =~= Seq::<PlacedUnit>::empty());
                assert(seen + Seq::<PlacedUnit>::empty() =~= seen);
                k = k + 1;
                continue;
            }
            let units = self.rhyme_units(sp.text.as_str());
            let ghost uv = units@.map_values(|u: RhymeUnit| u@);
            let ghost base = seen;
            let mut j: usize = 0;
            while j < units.len()
                invariant
                    uv == units@.map_values(|u: RhymeUnit| u@),
                    uv == word_rhyme_units(entries, w),
                    units_within(uv, unicode_lowercase(w).len() as int),
                    j <= units@.len(),
                    grouping.wf(),
                    grouping@ == grouped(seen),
                    seen == base + shift_units(uv.take(j as int), sp.start as int),
                decreases units.len() - j,
            {
                let unit = &units[j];
                assert(uv.take(j + 1).drop_last() =~= uv.take(j as int));
                assert(uv[j as int] == unit@);
                assert(0 <= uv[j as int].1 < uv[j as int].2);
                match sp.start.checked_add(unit.end) {
                    Some(end) => {
                        let start = sp.start + unit.start;
                        grouping.add(unit.key.clone(), start, end, Ghost(seen));
                        proof {
                            seen = seen.push((unit.key@, start as int, end as int));
                        }
                    }
                    None => {}
                }
                j = j + 1;
            }
            assert(uv.take(j as int) =~= uv);
            assert(seen == units_of_words(entries, text@, ws, k + 1));
            k = k + 1;
        }
        assert(seen == document_units(entries, text@));
        grouping.into_groups()
    }
}

/// Background colors cycled across rhyme groups, in the order groups first
/// appear in the document.
pub const PALETTE: [&'static str; 24] = [
    "#a32828", "#a34728", "#a36628", "#a38428", "#a3a328", "#84a328", "#66a328", "#47a328", "#28a328", "#28a347",
    "#28a366", "#28a384", "#28a3a3", "#2884a3", "#2865a3", "#2847a3", "#2828a3", "#4728a3", "#6528a3", "#8428a3",
    "#a328a3", "#a32884", "#a32866", "#a32847",
];

/// The highlights for `groups`, read front to back with `cursor` groups
/// already colored: every group with at least two members gets the next
/// palette color (cycling through the 24), and each of its spans is
/// highlighted with it; single-member groups stay uncolored.
pub open spec fn color_plan(groups: Seq<Seq<(int, int)>>, cursor: int) -> Seq<(int, int, int)>
    decreases groups.len(),
{
    if groups.len() == 0 {
        Seq::empty()
    } else if groups[0].len() < 2 {
        color_plan(groups.drop_first(), cursor)
    } else {
        groups[0].map_values(|m: (int, int)| (cursor % 24, m.0, m.1)) + color_plan(groups.drop_first(), cursor + 1)
    }
}

/// How many spans the groups of two or more members hold together.
pub open spec fn shared_members(groups: Seq<Seq<(int, int)>>) -> nat
    decreases groups.len(),
{
    if groups.len() == 0 {
        0
    } else {
        shared_members(groups.drop_last()) + if groups.last().len() >= 2 { groups.last().len() } else { 0 }
    }
}

proof fn lemma_shared_members_first(groups: Seq<Seq<(int, int)>>)
    requires
        groups.len() > 0,
    ensures
        shared_members(groups) == shared_members(groups.drop_first()) + if groups[0].len() >= 2 {
            groups[0].len()
        } else {
            0
        },
    decreases groups.len(),
{
    if groups.len() > 1 {
        lemma_shared_members_first(groups.drop_last());
        assert(groups.drop_last()[0] == groups[0]);
        assert(groups.drop_last().drop_first() =~= groups.drop_first().drop_last());
        assert(groups.drop_first().last() == groups.last());
        assert(shared_members(groups.drop_first()) == shared_members(groups.drop_first().drop_last())
            + if groups.last().len() >= 2 { groups.last().len() } else { 0 });
    } else {
        assert(groups.drop_first().len() == 0);
        assert(groups.drop_last().len() == 0);
        assert(groups.last() == groups[0]);
        assert(shared_members(groups.drop_last()) == 0);
        assert(shared_members(groups.drop_first()) == 0);
    }
}

/// Only rhymes are colored, and all of them: every highlight is a member of
/// a group with at least two members, in a palette color, and there are as
/// many highlights as such groups have members, so a word rhyming with
/// nothing else stays plain.
pub proof fn lemma_color_plan_covers_rhymes(groups: Seq<Seq<(int, int)>>, cursor: int)
    requires
        cursor >= 0,
    ensures
        color_plan(groups, cursor).len() == shared_members(groups),
        forall|i: int| 0 <= i < color_plan(groups, cursor).len() ==> 0 <= (#[trigger] color_plan(groups, cursor)[i]).0 < 24
            && exists|g: int| 0 <= g < groups.len() && groups[g].len() >= 2 && groups[g].contains(
                (color_plan(groups, cursor)[i].1, color_plan(groups, cursor)[i].2),
            ),
    decreases groups.len(),
{
    if groups.len() > 0 {
        lemma_shared_members_first(groups);
        let rest = groups.drop_first();
        let next = if groups[0].len() < 2 { cursor } else { cursor + 1 };
        lemma_color_plan_covers_rhymes(rest, next);
        let plan = color_plan(groups, cursor);
        let tail = color_plan(rest, next);
        let head = if groups[0].len() < 2 {
            Seq::<(int, int, int)>::empty()
        } else {
            groups[0].map_values(|m: (int, int)| (cursor % 24, m.0, m.1))
        };
        assert(plan =~= head + tail);
        assert forall|i: int| 0 <= i < plan.len() implies 0 <= (#[trigger] plan[i]).0 < 24 && exists|g: int|
            0 <= g < groups.len() && groups[g].len() >= 2 && groups[g].contains((plan[i].1, plan[i].2)) by {
            if i < head.len() {
                assert(plan[i] == head[i]);
                assert(groups[0][i] == (plan[i].1, plan[i].2));
                assert(groups[0].contains((plan[i].1, plan[i].2)));
            } else {
                assert(plan[i] == tail[i - head.len()]);
                let g = choose|g: int| 0 <= g < rest.len() && rest[g].len() >= 2 && rest[g].contains(
                    (tail[i - head.len()].1, tail[i - head.len()].2),
                );
                assert(groups[g + 1] == rest[g]);
            }
        }
    }
}

/// The highlights for `groups`: `(palette index, start, end)` for every
/// member of every group with at least two members (see `color_plan`).
pub fn highlight_plan(groups: &Vec<Vec<(usize, usize)>>) -> (r: Vec<(usize, usize, usize)>)
    ensures
        r@.map_values(|h: (usize, usize, usize)| (h.0 as int, h.1 as int, h.2 as int)) == color_plan(
            groups@.map_values(|g: Vec<(usize, usize)>| spans_view(g@)),
            0,
        ),
        forall|i: int| 0 <= i < r@.len() ==> #[trigger] r@[i].0 < 24,
{
    let ghost gv = groups@.map_values(|g: Vec<(usize, usize)>| spans_view(g@));
    let mut out: Vec<(usize, usize, usize)> = Vec::new();
    let mut cursor: usize = 0;
    let mut g: usize = 0;
    assert(gv.skip(0) =~= gv);
    while g < groups.len()
        invariant
            gv == groups@.map_values(|g: Vec<(usize, usize)>| spans_view(g@)),
            g <= groups@.len(),
            cursor <= g,
            out@.map_values(|h: (usize, usize, usize)| (h.0 as int, h.1 as int, h.2 as int)) + color_plan(gv.skip(g as int), cursor as int)
                == color_plan(gv, 0),
            forall|i: int| 0 <= i < out@.len() ==> #[trigger] out@[i].0 < 24,
        decreases groups.len() - g,
    {
        let members = &groups[g];
        let ghost rest = gv.skip(g as int);
        assert(rest[0] == spans_view(members@));
        assert(rest.drop_first() =~= gv.skip(g + 1));
        if members.len() >= 2 {
            let color = cursor % 24;
            let ghost before = out@.map_values(|h: (usize, usize, usize)| (h.0 as int, h.1 as int, h.2 as int));
            let mut m: usize = 0;
            while m < members.len()
                invariant
                    color == cursor % 24,
                    m <= members@.len(),
                    out@.map_values(|h: (usize, usize, usize)| (h.0 as int, h.1 as int, h.2 as int)) == before
                        + spans_view(members@).take(m as int).map_values(|p: (int, int)| (cursor as int % 24, p.0, p.1)),
                    forall|i: int| 0 <= i < out@.len() ==> #[trigger] out@[i].0 < 24,
                decreases members.len() - m,
            {
                let (s, e) = members[m];
                let ghost prev = out@;
                out.push((color, s, e));
                proof {
                    let f = |h: (usize, usize, usize)| (h.0 as int, h.1 as int, h.2 as int);
                    let c = |p: (int, int)| (cursor as int % 24, p.0, p.1);
                    let sv = spans_view(members@);
                    assert(sv[m as int] == (s as int, e as int));
                    assert(sv.take(m + 1) =~= sv.take(m as int).push((s as int, e as int)));
                    assert(sv.take(m + 1).map_values(c) =~= sv.take(m as int).map_values(c).push(c((s as int, e as int))));
                    assert(out@ =~= prev.push((color, s, e)));
                    assert(out@.map_values(f) =~= prev.map_values(f).push(f((color, s, e))));
                    assert(out@.map_values(|h: (usize, usize, usize)| (h.0 as int, h.1 as int, h.2 as int)) =~= before
                        + spans_view(members@).take(m + 1).map_values(|p: (int, int)| (cursor as int % 24, p.0, p.1)));
                    assert forall|i: int| 0 <= i < out@.len() implies #[trigger] out@[i].0 < 24 by {
                        if i < prev.len() {
                            assert(out@[i] == prev[i]);
                        }
                    }
                }
                m = m + 1;
            }
            assert(spans_view(members@).take(m as int) =~= spans_view(members@));
            cursor = cursor + 1;
        }
        g = g + 1;
    }
    assert(gv.skip(g as int) =~= Seq::<Seq<(int, int)>>::empty());
    out
}

impl RhymeDictionary {
    /// The highlights for `text`: `(palette index, start, end)` character
    /// spans for every rhyme group with at least two members.
    pub fn rhyme_highlights(&self, text: &str) -> (r: Vec<(usize, usize, usize)>)
        ensures
            r@.map_values(|h: (usize, usize, usize)| (h.0 as int, h.1 as int, h.2 as int)) == color_plan(
                grouped(document_units(self.entries(), text@)).map_values(|g: (Seq<char>, Seq<(int, int)>)| g.1),
                0,
            ),
    {
        let groups = self.rhyme_groups(text);
        let r = highlight_plan(&groups);
        assert(groups@.map_values(|g: Vec<(usize, usize)>| spans_view(g@)) =~= grouped(document_units(self.entries(), text@)).map_values(
            |g: (Seq<char>, Seq<(int, int)>)| g.1,
        ));
        r
    }
}

} // verus!
