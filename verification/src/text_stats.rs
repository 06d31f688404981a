//! Word and syllable counts for the status bar and the syllable gutter.
use vstd::prelude::*;
use crate::patterns::{regex_compiles, regex_first_match, regex_is_match, regex_match_texts, total_len, Pattern};
use crate::strings::{
    ascii_digit, chars_of, is_alphanumeric, is_ascii_digit, lemma_trim_joined, push_char, string_of, trim,
    trim_str, unicode_alphanumeric, unicode_whitespace,
};

verus! {

/// A character that `\w` matches: alphanumeric or `_`.
pub open spec fn word_char(c: char) -> bool {
    unicode_alphanumeric(c) || c == '_'
}

/// The number of maximal runs of word characters in `s`, i.e. the number of
/// positions where a word character follows a non-word character (or the
/// start of the text).
pub open spec fn word_count(s: Seq<char>) -> nat
    decreases s.len(),
{
    if s.len() == 0 {
        0
    } else {
        let n = s.len() - 1;
        word_count(s.take(n)) + if word_char(s[n]) && (n == 0 || !word_char(s[n - 1])) {
            1nat
        } else {
            0nat
        }
    }
}

proof fn lemma_word_count_half(s: Seq<char>)
    ensures
        2 * word_count(s) <= s.len() + if s.len() > 0 && word_char(s.last()) { 1int } else { 0int },
    decreases s.len(),
{
    if s.len() > 0 {
        let t = s.take(s.len() - 1);
        lemma_word_count_half(t);
        if s.len() > 1 {
            assert(t.last() == s[s.len() - 2]);
        }
    }
}

/// A text of `n` characters holds at most `(n + 1) / 2` words, since two
/// words need a character between them.
pub proof fn lemma_word_count_bound(s: Seq<char>)
    ensures
        2 * word_count(s) <= s.len() + 1,
        word_count(s) <= s.len(),
{
    lemma_word_count_half(s);
}

/// A prefix holds no more words than the whole text.
proof fn lemma_word_count_prefix(s: Seq<char>, i: int)
    requires
        0 <= i <= s.len(),
    ensures
        word_count(s.take(i)) <= word_count(s),
    decreases s.len() - i,
{
    if i == s.len() {
        assert(s.take(i) =~= s);
    } else {
        let t = s.take(s.len() - 1);
        lemma_word_count_prefix(t, i);
        assert(t.take(i) =~= s.take(i));
    }
}

proof fn lemma_word_count_append(x: Seq<char>, y: Seq<char>)
    requires
        x.len() > 0,
        !word_char(x.last()),
    ensures
        word_count(x + y) == word_count(x) + word_count(y),
    decreases y.len(),
{
    if y.len() == 0 {
        assert(x + y =~= x);
    } else {
        let n = (x + y).len() - 1;
        let m = y.len() - 1;
        assert((x + y).take(n) =~= x + y.take(m));
        lemma_word_count_append(x, y.take(m));
        assert((x + y)[n] == y[m]);
        if m > 0 {
            assert((x + y)[n - 1] == y[m - 1]);
        } else {
            assert((x + y)[n - 1] == x.last());
        }
    }
}

/// Word counts add up over a space: the words of `a`, a space, then `b`
/// are the words of `a` and those of `b`, since a space never joins two
/// words. The empty text has no words.
pub proof fn lemma_word_count_adds(a: Seq<char>, b: Seq<char>)
    ensures
        word_count(a + seq![' '] + b) == word_count(a) + word_count(b),
        word_count(Seq::<char>::empty()) == 0,
{
    let x = a + seq![' '];
    assert(x.take(a.len() as int) =~= a);
    assert(x.last() == ' ');
    assert(word_count(x) == word_count(a));
    lemma_word_count_append(x, b);
}

/// Counts runs of word characters (`\w`), i.e. transitions from a non-word
/// character to a word character. The count has to fit a `u32`, as it
/// does for any text of at most `2 * u32::MAX` characters
/// (`lemma_word_count_bound`).
pub fn count_words(text: &str) -> (count: u32)
    requires
        word_count(text@) <= u32::MAX,
    ensures
        count == word_count(text@),
{
    let cs = chars_of(text);
    let mut count: u32 = 0;
    let mut in_word = false;
    let mut i: usize = 0;
    while i < cs.len()
        invariant
            cs@ == text@,
            i <= cs@.len(),
            word_count(cs@) <= u32::MAX,
            count == word_count(cs@.take(i as int)),
            in_word == (i > 0 && word_char(cs@[i - 1])),
        decreases cs.len() - i,
    {
        let c = cs[i];
        let is_word_char = is_alphanumeric(c) || c == '_';
        proof {
            assert(cs@.take(i + 1).take(i as int) =~= cs@.take(i as int));
            lemma_word_count_prefix(cs@, i + 1);
        }
        if is_word_char && !in_word {
            count = count + 1;
        }
        in_word = is_word_char;
        i = i + 1;
    }
    assert(cs@.take(i as int) =~= cs@);
    count
}

/// The word for a digit in the units place (`""` for zero).
pub open spec fn ones_word(d: int) -> Seq<char> {
    if d == 1 { "one"@ }
    else if d == 2 { "two"@ }
    else if d == 3 { "three"@ }
    else if d == 4 { "four"@ }
    else if d == 5 { "five"@ }
    else if d == 6 { "six"@ }
    else if d == 7 { "seven"@ }
    else if d == 8 { "eight"@ }
    else if d == 9 { "nine"@ }
    else { ""@ }
}

/// The word for a digit in the tens place (`""` for zero).
pub open spec fn tens_word(d: int) -> Seq<char> {
    if d == 1 { "ten"@ }
    else if d == 2 { "twenty"@ }
    else if d == 3 { "thirty"@ }
    else if d == 4 { "forty"@ }
    else if d == 5 { "fifty"@ }
    else if d == 6 { "sixty"@ }
    else if d == 7 { "seventy"@ }
    else if d == 8 { "eighty"@ }
    else if d == 9 { "ninety"@ }
    else { ""@ }
}

/// The word for 11 through 19, indexed from 11.
pub open spec fn teens_word(d: int) -> Seq<char> {
    if d == 0 { "eleven"@ }
    else if d == 1 { "twelve"@ }
    else if d == 2 { "thirteen"@ }
    else if d == 3 { "fourteen"@ }
    else if d == 4 { "fifteen"@ }
    else if d == 5 { "sixteen"@ }
    else if d == 6 { "seventeen"@ }
    else if d == 7 { "eighteen"@ }
    else { "nineteen"@ }
}

/// The English words for `n` below one hundred, each word followed by a
/// space.
pub open spec fn below_hundred_words(n: int) -> Seq<char> {
    if n >= 20 {
        tens_word(n / 10) + " "@ + ones_word(n % 10) + " "@
    } else if n >= 11 {
        teens_word(n - 11) + " "@
    } else if n == 10 {
        "ten "@
    } else {
        ones_word(n) + " "@
    }
}

/// The English words for `n < 1000`: a hundreds part if any, then the rest.
pub open spec fn below_thousand_words(n: int) -> Seq<char> {
    if n >= 100 {
        ones_word(n / 100) + " hundred "@ + below_hundred_words(n % 100)
    } else {
        below_hundred_words(n)
    }
}

/// The English words for `n >= 0`, as the syllable counter reads numbers:
/// thousands recursively, then hundreds, tens and units, each word followed
/// by a space ("zero" alone for zero).
pub open spec fn number_words(n: int) -> Seq<char>
    decreases n,
{
    if n <= 0 {
        "zero"@
    } else if n >= 1000 {
        number_words(n / 1000) + " thousand "@ + below_thousand_words(n % 1000)
    } else {
        below_thousand_words(n)
    }
}

fn ones_str(d: i64) -> (r: &'static str)
    ensures
        r@ == ones_word(d as int),
{
    if d == 1 { "one" }
    else if d == 2 { "two" }
    else if d == 3 { "three" }
    else if d == 4 { "four" }
    else if d == 5 { "five" }
    else if d == 6 { "six" }
    else if d == 7 { "seven" }
    else if d == 8 { "eight" }
    else if d == 9 { "nine" }
    else { "" }
}

fn tens_str(d: i64) -> (r: &'static str)
    ensures
        r@ == tens_word(d as int),
{
    if d == 1 { "ten" }
    else if d == 2 { "twenty" }
    else if d == 3 { "thirty" }
    else if d == 4 { "forty" }
    else if d == 5 { "fifty" }
    else if d == 6 { "sixty" }
    else if d == 7 { "seventy" }
    else if d == 8 { "eighty" }
    else if d == 9 { "ninety" }
    else { "" }
}

fn teens_str(d: i64) -> (r: &'static str)
    ensures
        r@ == teens_word(d as int),
{
    if d == 0 { "eleven" }
    else if d == 1 { "twelve" }
    else if d == 2 { "thirteen" }
    else if d == 3 { "fourteen" }
    else if d == 4 { "fifteen" }
    else if d == 5 { "sixteen" }
    else if d == 6 { "seventeen" }
    else if d == 7 { "eighteen" }
    else { "nineteen" }
}

fn append_below_hundred(words: &mut String, num: i64)
    requires
        0 <= num < 100,
    ensures
        final(words)@ == old(words)@ + below_hundred_words(num as int),
{
    if num >= 20 {
        words.append(tens_str(num / 10));
        words.append(" ");
        words.append(ones_str(num % 10));
        words.append(" ");
    } else if num >= 11 {
        words.append(teens_str(num - 11));
        words.append(" ");
    } else if num == 10 {
        words.append("ten ");
    } else {
        words.append(ones_str(num));
        words.append(" ");
    }
}

fn append_below_thousand(words: &mut String, num: i64)
    requires
        0 <= num < 1000,
    ensures
        final(words)@ == old(words)@ + below_thousand_words(num as int),
{
    if num >= 100 {
        words.append(ones_str(num / 100));
        words.append(" hundred ");
        append_below_hundred(words, num % 100);
    } else {
        append_below_hundred(words, num);
    }
}

/// Spells out a non-negative number in English words, each word followed by
/// a space (e.g. 973 is `"nine hundred seventy three "`), or `"zero"`.
pub fn number_to_words(num: i64) -> (words: String)
    requires
        num >= 0,
    ensures
        words@ == number_words(num as int),
    decreases num,
{
    if num == 0 {
        return String::from_str("zero");
    }
    let mut words = String::new();
    if num >= 1000 {
        let head = number_to_words(num / 1000);
        words.append(head.as_str());
        words.append(" thousand ");
        append_below_thousand(&mut words, num % 1000);
    } else {
        append_below_thousand(&mut words, num);
    }
    words
}

/// The decimal value of a run of ASCII digits.
pub open spec fn digits_value(ds: Seq<char>) -> int
    decreases ds.len(),
{
    if ds.len() == 0 {
        0
    } else {
        digits_value(ds.drop_last()) * 10 + (ds.last() as int - '0' as int)
    }
}

/// A prefix of a digit string is worth no more than the whole string.
pub proof fn lemma_digits_value_grows(ds: Seq<char>, i: int)
    requires
        0 <= i <= ds.len(),
        forall|k: int| 0 <= k < ds.len() ==> ascii_digit(#[trigger] ds[k]),
    ensures
        0 <= digits_value(ds.take(i)) <= digits_value(ds),
    decreases ds.len() - i,
{
    if i == ds.len() {
        assert(ds.take(i) =~= ds);
        lemma_digits_value_nonneg(ds);
    } else {
        let d = ds.drop_last();
        assert forall|k: int| 0 <= k < d.len() implies ascii_digit(#[trigger] d[k]) by {
            assert(d[k] == ds[k]);
        }
        lemma_digits_value_grows(d, i);
        assert(d.take(i) =~= ds.take(i));
        lemma_digits_value_nonneg(d);
        assert(ascii_digit(ds[ds.len() - 1]));
    }
}

/// A digit string is worth at least zero.
pub proof fn lemma_digits_value_nonneg(ds: Seq<char>)
    requires
        forall|k: int| 0 <= k < ds.len() ==> ascii_digit(#[trigger] ds[k]),
    ensures
        digits_value(ds) >= 0,
    decreases ds.len(),
{
    if ds.len() > 0 {
        let d = ds.drop_last();
        assert forall|k: int| 0 <= k < d.len() implies ascii_digit(#[trigger] d[k]) by {
            assert(d[k] == ds[k]);
        }
        lemma_digits_value_nonneg(d);
        assert(ascii_digit(ds[ds.len() - 1]));
    }
}

/// Parses a run of ASCII digits as an `i64`, as `str::parse::<i64>` does for
/// such a run: `None` exactly when the value does not fit.
pub fn parse_digits(ds: &[char]) -> (r: Option<i64>)
    requires
        forall|k: int| 0 <= k < ds@.len() ==> ascii_digit(#[trigger] ds@[k]),
    ensures
        r == (if digits_value(ds@) <= i64::MAX { Some(digits_value(ds@) as i64) } else { None::<i64> }),
        r matches Some(v) ==> v >= 0,
{
    proof {
        lemma_digits_value_nonneg(ds@);
    }
    let mut v: i64 = 0;
    let mut i: usize = 0;
    while i < ds.len()
        invariant
            i <= ds@.len(),
            forall|k: int| 0 <= k < ds@.len() ==> ascii_digit(#[trigger] ds@[k]),
            v as int == digits_value(ds@.take(i as int)),
        decreases ds.len() - i,
    {
        let d: i64 = (ds[i] as u32 - '0' as u32) as i64;
        proof {
            assert(ds@.take(i + 1).drop_last() =~= ds@.take(i as int));
            lemma_digits_value_grows(ds@, i + 1);
        }
        if v > (i64::MAX - d) / 10 {
            proof {
                assert(digits_value(ds@.take(i + 1)) == v * 10 + d);
                assert(v * 10 + d > i64::MAX) by (nonlinear_arith)
                    requires v > (i64::MAX - d) / 10, 0 <= d <= 9;
            }
            return None;
        }
        proof {
            assert(v * 10 + d <= i64::MAX) by (nonlinear_arith)
                requires v <= (i64::MAX - d) / 10, 0 <= d <= 9, v >= 0;
        }
        v = v * 10 + d;
        i = i + 1;
    }
    assert(ds@.take(i as int) =~= ds@);
    Some(v)
}

/// The length of the run of ASCII digits at the start of `s`.
pub open spec fn digit_run(s: Seq<char>) -> nat
    decreases s.len(),
{
    if s.len() > 0 && ascii_digit(s[0]) {
        1 + digit_run(s.drop_first())
    } else {
        0
    }
}

/// `digit_run` is the length of the longest all-digit prefix.
pub proof fn lemma_digit_run_bounds(s: Seq<char>)
    ensures
        digit_run(s) <= s.len(),
        forall|k: int| 0 <= k < digit_run(s) ==> ascii_digit(#[trigger] s[k]),
        digit_run(s) < s.len() ==> !ascii_digit(s[digit_run(s) as int]),
    decreases s.len(),
{
    if s.len() > 0 && ascii_digit(s[0]) {
        lemma_digit_run_bounds(s.drop_first());
        assert forall|k: int| 0 <= k < digit_run(s) implies ascii_digit(#[trigger] s[k]) by {
            if k > 0 {
                assert(s[k] == s.drop_first()[k - 1]);
            }
        }
    }
}

proof fn lemma_digit_run_is(s: Seq<char>, n: int)
    requires
        0 <= n <= s.len(),
        forall|k: int| 0 <= k < n ==> ascii_digit(#[trigger] s[k]),
        n == s.len() || !ascii_digit(s[n]),
    ensures
        digit_run(s) == n,
    decreases n,
{
    if n > 0 {
        assert(ascii_digit(s[0]));
        assert forall|k: int| 0 <= k < n - 1 implies ascii_digit(#[trigger] s.drop_first()[k]) by {
            assert(s.drop_first()[k] == s[k + 1]);
        }
        lemma_digit_run_is(s.drop_first(), n - 1);
    }
}

/// What a run of digits becomes in the text the syllable counter reads: the
/// number's words, trimmed, or the digits themselves when the number does
/// not fit in an `i64`.
pub open spec fn digits_replacement(ds: Seq<char>) -> Seq<char> {
    if digits_value(ds) <= i64::MAX {
        trim(number_words(digits_value(ds)))
    } else {
        ds
    }
}

/// `s` with every maximal run of ASCII digits replaced by its
/// `digits_replacement`; all other characters are kept.
pub open spec fn numbers_as_words(s: Seq<char>) -> Seq<char>
    decreases s.len(),
{
    if s.len() == 0 {
        Seq::empty()
    } else if ascii_digit(s[0]) {
        let k = digit_run(s);
        proof {
            lemma_digit_run_bounds(s);
            assert(k >= 1) by {
                reveal_with_fuel(digit_run, 2);
            }
        }
        digits_replacement(s.take(k as int)) + numbers_as_words(s.skip(k as int))
    } else {
        seq![s[0]] + numbers_as_words(s.drop_first())
    }
}

/// Replaces every run of ASCII digits with the number spelled out in words
/// (see `numbers_as_words`).
pub fn convert_numbers_to_words(input: &str) -> (result: String)
    ensures
        result@ == numbers_as_words(input@),
{
    let cs = chars_of(input);
    let n = cs.len();
    let mut result = String::new();
    let mut i: usize = 0;
    assert(cs@.skip(0) =~= cs@);
    while i < n
        invariant
            n == cs@.len(),
            cs@ == input@,
            i <= n,
            result@ + numbers_as_words(cs@.skip(i as int)) == numbers_as_words(cs@),
        decreases n - i,
    {
        let ghost rest = cs@.skip(i as int);
        let c = cs[i];
        if is_ascii_digit(c) {
            let mut j: usize = i + 1;
            while j < n && is_ascii_digit(cs[j])
                invariant
                    i < j <= n,
                    n == cs@.len(),
                    forall|k: int| i <= k < j ==> ascii_digit(#[trigger] cs@[k]),
                decreases n - j,
            {
                j = j + 1;
            }
            let mut digits: Vec<char> = Vec::new();
            let mut k: usize = i;
            while k < j
                invariant
                    i <= k <= j <= n,
                    n == cs@.len(),
                    digits@ == cs@.subrange(i as int, k as int),
                decreases j - k,
            {
                digits.push(cs[k]);
                k = k + 1;
            }
            proof {
                assert forall|m: int| 0 <= m < j - i implies ascii_digit(#[trigger] rest[m]) by {
                    assert(rest[m] == cs@[m + i]);
                }
                if j < n {
                    assert(rest[j - i] == cs@[j as int]);
                }
                lemma_digit_run_is(rest, j - i);
                assert(rest.take(j - i) =~= digits@);
                assert(rest.skip(j - i) =~= cs@.skip(j as int));
                assert forall|m: int| 0 <= m < digits@.len() implies ascii_digit(#[trigger] digits@[m]) by {
                    assert(digits@[m] == cs@[m + i]);
                }
            }
            let ghost before = result@;
            match parse_digits(digits.as_slice()) {
                Some(v) => {
                    let words = number_to_words(v);
                    let trimmed = trim_str(words.as_str());
                    result.append(trimmed.as_str());
                    proof {
                        lemma_digits_value_nonneg(digits@);
                        assert(digits_value(digits@) <= i64::MAX);
                        assert(v as int == digits_value(digits@));
                    }
                }
                None => {
                    let text = string_of(digits.as_slice());
                    result.append(text.as_str());
                }
            }
            assert(result@ == before + digits_replacement(digits@));
            assert(result@ + numbers_as_words(cs@.skip(j as int)) == numbers_as_words(cs@));
            i = j;
        } else {
            push_char(&mut result, c);
            assert(rest.drop_first() =~= cs@.skip(i + 1));
            i = i + 1;
        }
    }
    assert(cs@.skip(n as int) =~= Seq::<char>::empty());
    result
}


/// Where `pat` first occurs in `h` at or after index `k`, if anywhere.
pub open spec fn find_from(h: Seq<char>, pat: Seq<char>, k: int) -> Option<int>
    decreases h.len() + 1 - k,
{
    if k < 0 || k + pat.len() > h.len() {
        None
    } else if h.subrange(k, k + pat.len()) == pat {
        Some(k)
    } else {
        find_from(h, pat, k + 1)
    }
}

/// `str::replacen(h, pat, to, 1)`: the first occurrence of `pat` replaced by
/// `to`, or `h` unchanged when `pat` does not occur.
pub open spec fn replace_first(h: Seq<char>, pat: Seq<char>, to: Seq<char>) -> Seq<char> {
    match find_from(h, pat, 0) {
        Some(k) => h.take(k) + to + h.skip(k + pat.len()),
        None => h,
    }
}

/// What `find_from` finds is an occurrence of `pat` at or after `k`.
pub proof fn lemma_find_from(h: Seq<char>, pat: Seq<char>, k: int)
    requires
        k >= 0,
    ensures
        find_from(h, pat, k) matches Some(j) ==> k <= j && j + pat.len() <= h.len()
            && h.subrange(j, j + pat.len()) == pat,
    decreases h.len() + 1 - k,
{
    if k + pat.len() <= h.len() && h.subrange(k, k + pat.len()) != pat {
        lemma_find_from(h, pat, k + 1);
    }
}

/// How much `replace_first` can lengthen a text.
pub proof fn lemma_replace_first_len(h: Seq<char>, pat: Seq<char>, to: Seq<char>)
    ensures
        to.len() <= pat.len() ==> replace_first(h, pat, to).len() <= h.len(),
        to.len() > pat.len() ==> replace_first(h, pat, to).len() <= h.len() + (to.len() - pat.len()),
{
    lemma_find_from(h, pat, 0);
}

/// Whether `pat` occurs in `h` starting at index `k`.
pub(crate) fn occurs_at(h: &[char], pat: &[char], k: usize) -> (r: bool)
    requires
        k + pat@.len() <= h@.len(),
    ensures
        r == (h@.subrange(k as int, k + pat@.len()) == pat@),
{
    let n = h.len();
    let mut i: usize = 0;
    while i < pat.len()
        invariant
            n == h@.len(),
            k + pat@.len() <= h@.len(),
            i <= pat@.len(),
            forall|m: int| 0 <= m < i ==> h@[k + m] == pat@[m],
        decreases pat.len() - i,
    {
        if h[k + i] != pat[i] {
            assert(h@.subrange(k as int, k + pat@.len())[i as int] != pat@[i as int]);
            return false;
        }
        i = i + 1;
    }
    assert(h@.subrange(k as int, k + pat@.len()) =~= pat@);
    true
}

/// Replaces the first occurrence of `pat` in `h` with `to`
/// (`str::replacen(h, pat, to, 1)`).
pub fn replace_first_str(h: &str, pat: &str, to: &str) -> (r: String)
    ensures
        r@ == replace_first(h@, pat@, to@),
{
    let hc = chars_of(h);
    let pc = chars_of(pat);
    let n = hc.len();
    let m = pc.len();
    let mut k: usize = 0;
    while k <= n && m <= n - k
        invariant
            hc@ == h@,
            pc@ == pat@,
            n == hc@.len(),
            m == pc@.len(),
            find_from(h@, pat@, 0) == find_from(h@, pat@, k as int),
        decreases n + 1 - k,
    {
        if occurs_at(hc.as_slice(), pc.as_slice(), k) {
            let mut out: Vec<char> = Vec::new();
            let mut i: usize = 0;
            while i < k
                invariant
                    i <= k <= n,
                    n == hc@.len(),
                    out@ == hc@.take(i as int),
                decreases k - i,
            {
                out.push(hc[i]);
                i = i + 1;
            }
            let mut r = string_of(out.as_slice());
            r.append(to);
            let mut tail: Vec<char> = Vec::new();
            let mut j: usize = k + m;
            while j < n
                invariant
                    k + m <= j <= n,
                    n == hc@.len(),
                    tail@ == hc@.subrange(k + m, j as int),
                decreases n - j,
            {
                tail.push(hc[j]);
                j = j + 1;
            }
            let rest = string_of(tail.as_slice());
            r.append(rest.as_str());
            assert(hc@.subrange(k + m, n as int) =~= hc@.skip(k + m));
            return r;
        }
        assert(m > 0) by {
            if m == 0 {
                assert(hc@.subrange(k as int, k as int) =~= pc@);
            }
        }
        k = k + 1;
    }
    String::from_str(h)
}

/// Pattern that picks out the words the syllable counter scores.
pub const WORD_BOUNDARY: &'static str = r"(?:\w-\w|[\w\u{C0}-\u{FF}'\u{2019}])+";
/// Endings that form a syllable of their own (split off before counting).
pub const C_ENDINGS: &'static str = r"(?mi)(?<=\w{3})(side|\wess|(?<!ed)ly|ment|ship|board|ground|(?<![^u]de)ville|port|ful(ly)?|berry|box|nesse?|such|m[ae]n|wom[ae]n|anne)s?$";
/// Beginnings that form a syllable of their own (cut off and counted once).
pub const C_BEGINNINGS: &'static str = r"(?mi)^(ware|side(?![sd]$)|p?re(?!ach|agan|al|au)|[rf]ace(?!([sd]|tte)$)|place[^nsd])";
/// `e` spellings that add a syllable.
pub const ESYLP: &'static str = r"(?mi)ie($|l|t|rg)|([cb]|tt|pp)le$|phe$|kle(s|$)|[^n]scien|sue|aybe$|[^aeiou]shed|[^lsoai]les$|([^e]r|g)ge$|(gg|ck|yw|etch)ed$|(sc|o)he$|seer|^re[eiuy]";
/// `e` spellings that take a syllable away.
pub const ESYLM: &'static str = r"(?mi)every|some([^aeiouyr]|$)|[^trb]ere(?!d|$|o|r|t|a[^v]|n|s|x)|[^g]eous|niet";
/// `i` spellings that add a syllable.
pub const ISYLP: &'static str = r"(?mi)rie[^sndfvtl]|(?<=^|[^tcs]|st)ia|siai|[^ct]ious|quie|[lk]ier|settli|[^cn]ien[^d]|[aeio]ing$|dei[tf]|isms?$";
/// `o` spellings that add a syllable.
pub const OSYLP: &'static str = r"(?mi)nyo|osm(s$|$)|oinc|ored(?!$)|(^|[^ts])io|oale|[aeiou]yoe|^m[ia]cro([aiouy]|e)|roe(v|$)|ouel|^proa|oolog";
/// `o` spellings that take a syllable away.
pub const OSYLM: &'static str = r"(?mi)[^f]ore(?!$|[vcaot]|d$|tte)|fore|llio";
/// `a` spellings that add a syllable.
pub const ASYLP: &'static str = r"(?mi)asm(s$|$)|ausea|oa$|anti[aeiou]|raor|intra[ou]|iae|ahe$|dais|(?<!p)ea(l(?!m)|$)|(?<!j)ean|(?<!il)eage";
/// `a` spellings that take a syllable away.
pub const ASYLM: &'static str = r"(?mi)aste(?!$|ful|s$|r)|[^r]ared$";
/// `u` spellings that add a syllable.
pub const USYLP: &'static str = r"(?mi)uo[^y]|[^gq]ua(?!r)|uen|[^g]iu|uis(?![aeiou]|se)|ou(et|ille)|eu(ing|er)|uye[dh]|nuine|ucle[aeiuy]";
/// `u` spellings that take a syllable away.
pub const USYLM: &'static str = r"(?mi)geous|busi|logu(?![ei])";
/// `y` spellings that add a syllable.
pub const YSYLP: &'static str = r"(?mi)[ibcmrluhp]ya|nyac|[^e]yo|[aiou]y[aiou]|[aoruhm]ye(tt|l|n|v|z)|pye|dy[ae]|oye[exu]|lye[nlrs]|olye|aye(k|r|$|u[xr]|da)|saye\w|iye|wy[ae]|[^aiou]ying";
/// `y` spellings that take a syllable away.
pub const YSYLM: &'static str = r"(?mi)arley|key|ney$";
/// A silent plural `-es`.
pub const ES_SUFFIX: &'static str = r"(?mi)(?<!c[hrl]|sh|[iszxgej]|[niauery]c|do)es$";
/// A silent past-tense `-ed`.
pub const ED_SUFFIX: &'static str = r"(?mi)([aeiouy][^aeiouyrdt]|[^aeiouy][^laeiouyrdtbm]|ll|bb|ield|[ou]rb)ed$|[^cbda]red$";
/// Consonant clusters that add a syllable.
pub const CSYLP: &'static str = r"(?mi)chn[^eai]|mc|thm";
/// Vowel groups, the base of the estimate.
pub const E_VOWELS: &'static str = r"(?mi)[aiouy](?![aeiouy])|ee|e(?!$|-|[iua])";
/// A contracted `-n't` after a consonant, which adds a syllable.
pub const NT_SUFFIX: &'static str = r"(?i)[^aeiou]n['\u{2019}]t$";
/// A contracted `-en't`, which takes one away.
pub const ENT_SUFFIX: &'static str = r"(?i)en['\u{2019}]t$";

/// Every pattern of the syllable heuristics compiles.
pub open spec fn syllable_patterns_compile() -> bool {
    &&& regex_compiles(WORD_BOUNDARY@)
    &&& regex_compiles(C_ENDINGS@)
    &&& regex_compiles(C_BEGINNINGS@)
    &&& regex_compiles(ESYLP@)
    &&& regex_compiles(ESYLM@)
    &&& regex_compiles(ISYLP@)
    &&& regex_compiles(OSYLP@)
    &&& regex_compiles(OSYLM@)
    &&& regex_compiles(ASYLP@)
    &&& regex_compiles(ASYLM@)
    &&& regex_compiles(USYLP@)
    &&& regex_compiles(USYLM@)
    &&& regex_compiles(YSYLP@)
    &&& regex_compiles(YSYLM@)
    &&& regex_compiles(ES_SUFFIX@)
    &&& regex_compiles(ED_SUFFIX@)
    &&& regex_compiles(CSYLP@)
    &&& regex_compiles(E_VOWELS@)
    &&& regex_compiles(NT_SUFFIX@)
    &&& regex_compiles(ENT_SUFFIX@)
}

/// The number of matches of `pattern` in `w`.
pub open spec fn hits(pattern: &str, w: Seq<char>) -> int {
    regex_match_texts(pattern@, w).len() as int
}

/// 1 when `b` holds, else 0.
pub open spec fn flag(b: bool) -> int {
    if b { 1 } else { 0 }
}

/// `w` with a syllable-forming ending (if any) pushed onto a line of its own.
pub open spec fn split_ending(w: Seq<char>) -> Seq<char> {
    match regex_first_match(C_ENDINGS@, w) {
        Some(m) => replace_first(w, m, seq!['\n'] + m),
        None => w,
    }
}

/// `w` with a syllable-forming beginning (if any) cut off, and the number of
/// syllables that beginning counts for (0 or 1).
pub open spec fn cut_beginning(w: Seq<char>) -> (Seq<char>, int) {
    match regex_first_match(C_BEGINNINGS@, w) {
        Some(m) => (replace_first(w, m, Seq::empty()), 1),
        None => (w, 0),
    }
}

/// The vowel-group estimate of the syllables in `w`: vowel groups and the
/// spellings that add syllables, less the spellings and silent endings that
/// take them away.
pub open spec fn vowel_estimate(w: Seq<char>) -> int {
    hits(ESYLP, w) - hits(ESYLM, w) + hits(ISYLP, w) + hits(OSYLP, w) - hits(OSYLM, w) + hits(ASYLP, w)
        - hits(ASYLM, w) + hits(USYLP, w) - hits(USYLM, w) + hits(YSYLP, w) - hits(YSYLM, w)
        - flag(regex_is_match(ES_SUFFIX@, w)) - flag(regex_is_match(ED_SUFFIX@, w)) + hits(CSYLP, w)
        + hits(E_VOWELS, w)
}

/// The vowel estimate of `w`, term by term: each syllable-adding spelling
/// (`ESYLP`, `ISYLP`, `OSYLP`, `ASYLP`, `USYLP`, `YSYLP`, `CSYLP`) and each
/// vowel group (`E_VOWELS`) adds one per match; each syllable-taking
/// spelling (`ESYLM`, `OSYLM`, `ASYLM`, `USYLM`, `YSYLM`) takes one away per
/// match; a silent plural `-es` (`ES_SUFFIX`) and a silent past `-ed`
/// (`ED_SUFFIX`) each take one more away. So "jumped", whose vowel groups
/// are `u` and `e`, comes to one.
pub proof fn lemma_vowel_estimate_terms(w: Seq<char>)
    ensures
        vowel_estimate(w) == (regex_match_texts(ESYLP@, w).len() + regex_match_texts(ISYLP@, w).len()
            + regex_match_texts(OSYLP@, w).len() + regex_match_texts(ASYLP@, w).len()
            + regex_match_texts(USYLP@, w).len() + regex_match_texts(YSYLP@, w).len()
            + regex_match_texts(CSYLP@, w).len() + regex_match_texts(E_VOWELS@, w).len())
            - (regex_match_texts(ESYLM@, w).len() + regex_match_texts(OSYLM@, w).len()
            + regex_match_texts(ASYLM@, w).len() + regex_match_texts(USYLM@, w).len()
            + regex_match_texts(YSYLM@, w).len())
            - (if regex_is_match(ES_SUFFIX@, w) { 1int } else { 0int })
            - (if regex_is_match(ED_SUFFIX@, w) { 1int } else { 0int }),
{
}

/// A silent `-ed` ending costs exactly one syllable: of two words with the
/// same pattern counts, one ending in a silent `-ed` and one not, the first
/// is estimated one lower.
pub proof fn lemma_silent_ed_takes_one(w: Seq<char>, v: Seq<char>)
    requires
        regex_is_match(ED_SUFFIX@, w),
        !regex_is_match(ED_SUFFIX@, v),
        regex_is_match(ES_SUFFIX@, w) == regex_is_match(ES_SUFFIX@, v),
        regex_match_texts(ESYLP@, w).len() == regex_match_texts(ESYLP@, v).len(),
        regex_match_texts(ESYLM@, w).len() == regex_match_texts(ESYLM@, v).len(),
        regex_match_texts(ISYLP@, w).len() == regex_match_texts(ISYLP@, v).len(),
        regex_match_texts(OSYLP@, w).len() == regex_match_texts(OSYLP@, v).len(),
        regex_match_texts(OSYLM@, w).len() == regex_match_texts(OSYLM@, v).len(),
        regex_match_texts(ASYLP@, w).len() == regex_match_texts(ASYLP@, v).len(),
        regex_match_texts(ASYLM@, w).len() == regex_match_texts(ASYLM@, v).len(),
        regex_match_texts(USYLP@, w).len() == regex_match_texts(USYLP@, v).len(),
        regex_match_texts(USYLM@, w).len() == regex_match_texts(USYLM@, v).len(),
        regex_match_texts(YSYLP@, w).len() == regex_match_texts(YSYLP@, v).len(),
        regex_match_texts(YSYLM@, w).len() == regex_match_texts(YSYLM@, v).len(),
        regex_match_texts(CSYLP@, w).len() == regex_match_texts(CSYLP@, v).len(),
        regex_match_texts(E_VOWELS@, w).len() == regex_match_texts(E_VOWELS@, v).len(),
    ensures
        vowel_estimate(w) == vowel_estimate(v) - 1,
{
    lemma_vowel_estimate_terms(w);
    lemma_vowel_estimate_terms(v);
}

/// The syllables of a word longer than two characters: the beginning and
/// vowel estimates of the word (after splitting off an ending), at least 1,
/// then adjusted for `-n't` / `-en't` contractions.
pub open spec fn long_word_syllables(raw: Seq<char>) -> int {
    let w = cut_beginning(split_ending(raw));
    let base = w.1 + vowel_estimate(w.0);
    let at_least_one = if base <= 0 { 1 } else { base };
    at_least_one + flag(regex_is_match(NT_SUFFIX@, w.0)) - flag(regex_is_match(ENT_SUFFIX@, w.0))
}

/// What one matched word adds to the count: nothing for a bare apostrophe,
/// 1 for a word of at most two characters, else `long_word_syllables`.
pub open spec fn word_syllables(raw: Seq<char>) -> int {
    if raw == seq!['\''] || raw == seq!['\u{2019}'] {
        0
    } else if raw.len() <= 2 {
        1
    } else {
        long_word_syllables(raw)
    }
}

/// What one matched word adds: a bare apostrophe nothing, any other word of
/// one or two characters one syllable; a longer word the beginning and
/// vowel estimates of its split form but never less than one, then one
/// more for a `-n't` contraction and one less for an `-en't` one. No word
/// ever counts below zero.
pub proof fn lemma_word_syllables_rules(raw: Seq<char>)
    ensures
        raw == seq!['\''] ==> word_syllables(raw) == 0,
        raw == seq!['\u{2019}'] ==> word_syllables(raw) == 0,
        raw != seq!['\''] && raw != seq!['\u{2019}'] && raw.len() <= 2 ==> word_syllables(raw) == 1,
        raw.len() > 2 ==> ({
            let cut = cut_beginning(split_ending(raw));
            let base = cut.1 + vowel_estimate(cut.0);
            word_syllables(raw) == (if base >= 1 { base } else { 1 }) + (if regex_is_match(NT_SUFFIX@, cut.0) {
                1int
            } else {
                0int
            }) - (if regex_is_match(ENT_SUFFIX@, cut.0) { 1int } else { 0int })
        }),
        word_syllables(raw) >= 0,
{
    if raw.len() > 2 {
        assert(raw != seq!['\''] && raw != seq!['\u{2019}']);
    }
}

/// The sum of `word_syllables` over `ws`.
pub open spec fn syllable_sum(ws: Seq<Seq<char>>) -> int
    decreases ws.len(),
{
    if ws.len() == 0 {
        0
    } else {
        syllable_sum(ws.drop_last()) + word_syllables(ws.last())
    }
}

/// The syllable count of `text`: numbers are spelled out, the trimmed text is
/// split into words by `WORD_BOUNDARY`, and the words' syllables are summed;
/// a negative sum counts as zero, and the result is taken modulo 2^32.
pub open spec fn syllable_count(text: Seq<char>) -> u32 {
    let total = syllable_total(text);
    (if total < 0 { 0 } else { total }) as u32
}

/// The sum of the syllables of the words of `text`, before it is taken as
/// a `u32`.
pub open spec fn syllable_total(text: Seq<char>) -> int {
    syllable_sum(regex_match_texts(WORD_BOUNDARY@, numbers_as_words(trim(text))))
}

proof fn lemma_digit_run_append(x: Seq<char>, y: Seq<char>)
    ensures
        digit_run(x + y) == if digit_run(x) < x.len() { digit_run(x) } else { x.len() + digit_run(y) },
    decreases x.len(),
{
    if x.len() == 0 {
        assert(x + y =~= y);
    } else {
        assert((x + y)[0] == x[0]);
        if ascii_digit(x[0]) {
            assert((x + y).drop_first() =~= x.drop_first() + y);
            lemma_digit_run_append(x.drop_first(), y);
        }
    }
}

/// Spelling out numbers works piece by piece when the pieces do not split
/// a run of digits.
proof fn lemma_numbers_as_words_append(p: Seq<char>, q: Seq<char>)
    requires
        p.len() == 0 || q.len() == 0 || !ascii_digit(p.last()) || !ascii_digit(q[0]),
    ensures
        numbers_as_words(p + q) == numbers_as_words(p) + numbers_as_words(q),
    decreases p.len(),
{
    let pq = p + q;
    if p.len() == 0 {
        assert(pq =~= q);
        assert(numbers_as_words(p) =~= Seq::<char>::empty());
        assert(numbers_as_words(p) + numbers_as_words(q) =~= numbers_as_words(q));
    } else if ascii_digit(p[0]) {
        assert(pq[0] == p[0]);
        lemma_digit_run_bounds(p);
        lemma_digit_run_append(p, q);
        let k = digit_run(p) as int;
        assert(k >= 1) by {
            reveal_with_fuel(digit_run, 2);
        }
        if k == p.len() {
            assert(ascii_digit(p[p.len() - 1]));
            if q.len() > 0 {
                assert(!ascii_digit(q[0]));
            }
        }
        assert(digit_run(pq) == k);
        assert(pq.take(k) =~= p.take(k));
        assert(pq.skip(k) =~= p.skip(k) + q);
        if p.skip(k).len() > 0 {
            assert(p.skip(k).last() == p.last());
        }
        lemma_numbers_as_words_append(p.skip(k), q);
        assert(numbers_as_words(pq) =~= numbers_as_words(p) + numbers_as_words(q));
    } else {
        assert(pq[0] == p[0]);
        assert(pq.drop_first() =~= p.drop_first() + q);
        if p.drop_first().len() > 0 {
            assert(p.drop_first().last() == p.last());
        }
        lemma_numbers_as_words_append(p.drop_first(), q);
        assert(numbers_as_words(pq) =~= numbers_as_words(p) + numbers_as_words(q));
    }
}

/// A text without digits is left as it is.
proof fn lemma_numbers_as_words_no_digits(w: Seq<char>)
    requires
        forall|k: int| 0 <= k < w.len() ==> !ascii_digit(#[trigger] w[k]),
    ensures
        numbers_as_words(w) == w,
    decreases w.len(),
{
    if w.len() > 0 {
        assert(!ascii_digit(w[0]));
        assert forall|k: int| 0 <= k < w.drop_first().len() implies !ascii_digit(#[trigger] w.drop_first()[k]) by {
            assert(w.drop_first()[k] == w[k + 1]);
        }
        lemma_numbers_as_words_no_digits(w.drop_first());
        assert(seq![w[0]] + w.drop_first() =~= w);
    }
}

proof fn lemma_syllable_sum_append(xs: Seq<Seq<char>>, ys: Seq<Seq<char>>)
    ensures
        syllable_sum(xs + ys) == syllable_sum(xs) + syllable_sum(ys),
    decreases ys.len(),
{
    if ys.len() == 0 {
        assert(xs + ys =~= xs);
    } else {
        assert((xs + ys).drop_last() =~= xs + ys.drop_last());
        assert((xs + ys).last() == ys.last());
        lemma_syllable_sum_append(xs, ys.drop_last());
    }
}

proof fn lemma_syllable_sum_nonneg(ws: Seq<Seq<char>>)
    ensures
        syllable_sum(ws) >= 0,
    decreases ws.len(),
{
    if ws.len() > 0 {
        lemma_syllable_sum_nonneg(ws.drop_last());
    }
}

/// `WORD_BOUNDARY`'s matches in `p` are those of the text before a run of
/// whitespace followed by those of the text after it (a cut at the very
/// start of `p` included), as `Pattern::match_texts` states of that pattern.
pub open spec fn word_matches_split(p: Seq<char>) -> bool {
    forall|i: int, j: int|
        #![trigger regex_match_texts(WORD_BOUNDARY@, p.take(i)), regex_match_texts(WORD_BOUNDARY@, p.skip(j))]
        0 <= i <= j <= p.len() && (i < j || i == 0) && (forall|k: int| i <= k < j ==> unicode_whitespace(#[trigger] p[k]))
            ==> regex_match_texts(WORD_BOUNDARY@, p) == regex_match_texts(WORD_BOUNDARY@, p.take(i))
            + regex_match_texts(WORD_BOUNDARY@, p.skip(j))
}

/// Syllable counts add up over a space: the words of `a`, a space, then
/// `b` are counted as those of `a` and those of `b`, as long as the sum
/// fits a `u32`, given how the word pattern splits the joined text.
proof fn lemma_syllable_count_adds(a: Seq<char>, b: Seq<char>)
    requires
        word_matches_split(numbers_as_words(trim(a + seq![' '] + b))),
        syllable_total(a) + syllable_total(b) <= u32::MAX,
    ensures
        syllable_count(a + seq![' '] + b) == syllable_count(a) + syllable_count(b),
{
    let s = a + seq![' '] + b;
    let p = numbers_as_words(trim(s));
    let w = lemma_trim_joined(a, b);
    let ta = trim(a);
    let tb = trim(b);
    let m = |t: Seq<char>| regex_match_texts(WORD_BOUNDARY@, t);
    let e = Seq::<char>::empty();
    assert(p.take(0) =~= e);
    assert(p.skip(0) =~= p);
    assert(m(p) == m(p.take(0)) + m(p.skip(0)));
    assert(m(e) =~= Seq::<Seq<char>>::empty()) by {
        assert(m(p).len() == m(e).len() + m(p).len());
    }
    assert(numbers_as_words(e) =~= e);
    assert(syllable_sum(Seq::<Seq<char>>::empty()) == 0);
    if ta.len() == 0 {
        assert(ta =~= e);
    }
    if tb.len() == 0 {
        assert(tb =~= e);
    }
    if trim(s).len() == 0 {
        assert(trim(s) =~= e);
    }
    if ta.len() > 0 && tb.len() > 0 {
        assert forall|k: int| 0 <= k < w.len() implies !ascii_digit(#[trigger] w[k]) by {
            assert(unicode_whitespace(w[k]));
        }
        assert(!ascii_digit(w[0]));
        assert(!ascii_digit(w.last())) by {
            assert(unicode_whitespace(w[w.len() - 1]));
        }
        lemma_numbers_as_words_no_digits(w);
        assert(ta + w + tb =~= ta + (w + tb));
        assert((w + tb)[0] == w[0]);
        lemma_numbers_as_words_append(ta, w + tb);
        lemma_numbers_as_words_append(w, tb);
        let na = numbers_as_words(ta);
        let nb = numbers_as_words(tb);
        assert(p =~= na + w + nb);
        let i = na.len() as int;
        let j = i + w.len();
        assert(p.take(i) =~= na);
        assert(p.skip(j) =~= nb);
        assert forall|k: int| i <= k < j implies unicode_whitespace(#[trigger] p[k]) by {
            assert(p[k] == w[k - i]);
        }
        assert(m(p) == m(p.take(i)) + m(p.skip(j)));
        lemma_syllable_sum_append(m(na), m(nb));
    }
    lemma_syllable_sum_nonneg(m(numbers_as_words(ta)));
    lemma_syllable_sum_nonneg(m(numbers_as_words(tb)));
    assert(syllable_total(s) == syllable_total(a) + syllable_total(b));
}

/// The compiled patterns of the syllable heuristics.
pub struct SyllableRegexes {
    word_boundary: Pattern,
    c_endings: Pattern,
    c_beginnings: Pattern,
    esylp: Pattern,
    esylm: Pattern,
    isylp: Pattern,
    osylp: Pattern,
    osylm: Pattern,
    asylp: Pattern,
    asylm: Pattern,
    usylp: Pattern,
    usylm: Pattern,
    ysylp: Pattern,
    ysylm: Pattern,
    es_suffix: Pattern,
    ed_suffix: Pattern,
    csylp: Pattern,
    e_vowels: Pattern,
    nt_suffix: Pattern,
    ent_suffix: Pattern,
}

impl SyllableRegexes {
    /// Each field holds the pattern of the same name.
    pub closed spec fn wf(&self) -> bool {
        &&& self.word_boundary.source() == WORD_BOUNDARY@
        &&& self.c_endings.source() == C_ENDINGS@
        &&& self.c_beginnings.source() == C_BEGINNINGS@
        &&& self.esylp.source() == ESYLP@
        &&& self.esylm.source() == ESYLM@
        &&& self.isylp.source() == ISYLP@
        &&& self.osylp.source() == OSYLP@
        &&& self.osylm.source() == OSYLM@
        &&& self.asylp.source() == ASYLP@
        &&& self.asylm.source() == ASYLM@
        &&& self.usylp.source() == USYLP@
        &&& self.usylm.source() == USYLM@
        &&& self.ysylp.source() == YSYLP@
        &&& self.ysylm.source() == YSYLM@
        &&& self.es_suffix.source() == ES_SUFFIX@
        &&& self.ed_suffix.source() == ED_SUFFIX@
        &&& self.csylp.source() == CSYLP@
        &&& self.e_vowels.source() == E_VOWELS@
        &&& self.nt_suffix.source() == NT_SUFFIX@
        &&& self.ent_suffix.source() == ENT_SUFFIX@
    }

    /// Compiles every pattern: `Some` exactly when all of them compile.
    pub fn new() -> (r: Option<SyllableRegexes>)
        ensures
            r is Some <==> syllable_patterns_compile(),
            r matches Some(re) ==> re.wf(),
    {
        let word_boundary = match Pattern::compile(WORD_BOUNDARY) { Some(p) => p, None => return None };
        let c_endings = match Pattern::compile(C_ENDINGS) { Some(p) => p, None => return None };
        let c_beginnings = match Pattern::compile(C_BEGINNINGS) { Some(p) => p, None => return None };
        let esylp = match Pattern::compile(ESYLP) { Some(p) => p, None => return None };
        let esylm = match Pattern::compile(ESYLM) { Some(p) => p, None => return None };
        let isylp = match Pattern::compile(ISYLP) { Some(p) => p, None => return None };
        let osylp = match Pattern::compile(OSYLP) { Some(p) => p, None => return None };
        let osylm = match Pattern::compile(OSYLM) { Some(p) => p, None => return None };
        let asylp = match Pattern::compile(ASYLP) { Some(p) => p, None => return None };
        let asylm = match Pattern::compile(ASYLM) { Some(p) => p, None => return None };
        let usylp = match Pattern::compile(USYLP) { Some(p) => p, None => return None };
        let usylm = match Pattern::compile(USYLM) { Some(p) => p, None => return None };
        let ysylp = match Pattern::compile(YSYLP) { Some(p) => p, None => return None };
        let ysylm = match Pattern::compile(YSYLM) { Some(p) => p, None => return None };
        let es_suffix = match Pattern::compile(ES_SUFFIX) { Some(p) => p, None => return None };
        let ed_suffix = match Pattern::compile(ED_SUFFIX) { Some(p) => p, None => return None };
        let csylp = match Pattern::compile(CSYLP) { Some(p) => p, None => return None };
        let e_vowels = match Pattern::compile(E_VOWELS) { Some(p) => p, None => return None };
        let nt_suffix = match Pattern::compile(NT_SUFFIX) { Some(p) => p, None => return None };
        let ent_suffix = match Pattern::compile(ENT_SUFFIX) { Some(p) => p, None => return None };
        Some(SyllableRegexes {
            word_boundary, c_endings, c_beginnings, esylp, esylm, isylp, osylp, osylm, asylp, asylm,
            usylp, usylm, ysylp, ysylm, es_suffix, ed_suffix, csylp, e_vowels, nt_suffix, ent_suffix,
        })
    }

    fn estimate(&self, w: &str) -> (r: i128)
        requires
            self.wf(),
        ensures
            r == vowel_estimate(w@),
            -16 * (w@.len() + 1) <= r <= 16 * (w@.len() + 1),
    {
        let mut t: i128 = 0;
        t = t + self.esylp.count_matches(w) as i128;
        t = t - self.esylm.count_matches(w) as i128;
        t = t + self.isylp.count_matches(w) as i128;
        t = t + self.osylp.count_matches(w) as i128;
        t = t - self.osylm.count_matches(w) as i128;
        t = t + self.asylp.count_matches(w) as i128;
        t = t - self.asylm.count_matches(w) as i128;
        t = t + self.usylp.count_matches(w) as i128;
        t = t - self.usylm.count_matches(w) as i128;
        t = t + self.ysylp.count_matches(w) as i128;
        t = t - self.ysylm.count_matches(w) as i128;
        if self.es_suffix.is_match(w) {
            t = t - 1;
        }
        if self.ed_suffix.is_match(w) {
            t = t - 1;
        }
        t = t + self.csylp.count_matches(w) as i128;
        t = t + self.e_vowels.count_matches(w) as i128;
        t
    }

    /// The syllables `raw` (one matched word) adds to the count.
    fn word(&self, raw: &str) -> (r: i128)
        requires
            self.wf(),
        ensures
            r == word_syllables(raw@),
            -16 * (raw@.len() + 3) <= r <= 16 * (raw@.len() + 3),
    {
        let cs = chars_of(raw);
        if cs.len() == 1 && (cs[0] == '\'' || cs[0] == '\u{2019}') {
            assert(raw@ =~= seq![cs[0]]);
            return 0;
        }
        assert(raw@.len() == 1 ==> raw@ != seq!['\''] && raw@ != seq!['\u{2019}']);
        if cs.len() <= 2 {
            return 1;
        }
        let mut word = String::from_str(raw);
        let mut syllables: i128 = 0;
        if let Some(m) = self.c_endings.first_match(word.as_str()) {
            let mut marked = String::from_str("\n");
            marked.append(m.as_str());
            proof {
                reveal_strlit("\n");
                assert(marked@ =~= seq!['\n'] + m@);
                lemma_replace_first_len(word@, m@, marked@);
            }
            word = replace_first_str(word.as_str(), m.as_str(), marked.as_str());
        }
        assert(word@ == split_ending(raw@));
        let ghost ended = word@;
        if let Some(m) = self.c_beginnings.first_match(word.as_str()) {
            proof {
                lemma_replace_first_len(word@, m@, ""@);
            }
            word = replace_first_str(word.as_str(), m.as_str(), "");
            syllables = syllables + 1;
            proof {
                reveal_strlit("");
                assert(""@ =~= Seq::<char>::empty());
            }
        }
        assert(word@ == cut_beginning(ended).0);
        syllables = syllables + self.estimate(word.as_str());
        if syllables <= 0 {
            syllables = 1;
        }
        if self.nt_suffix.is_match(word.as_str()) {
            syllables = syllables + 1;
        }
        if self.ent_suffix.is_match(word.as_str()) {
            syllables = syllables - 1;
        }
        syllables
    }

    /// The syllable count of `text` (see `syllable_count`).
    /// Counts add up over a space: when `text` is `a`, a space, then `b`,
    /// the count is that of `a` plus that of `b` (sums fitting a `u32`).
    pub fn count(&self, text: &str) -> (n: u32)
        requires
            self.wf(),
        ensures
            n == syllable_count(text@),
            forall|a: Seq<char>, b: Seq<char>|
                #![trigger syllable_count(a), syllable_count(b)]
                text@ == a + seq![' '] + b && syllable_total(a) + syllable_total(b) <= u32::MAX
                    ==> n == syllable_count(a) + syllable_count(b),
    {
        let trimmed = trim_str(text);
        let with_words = convert_numbers_to_words(trimmed.as_str());
        let counted = chars_of(with_words.as_str());
        let counted_len = counted.len();
        assert(counted_len == with_words@.len());
        let words = self.word_boundary.match_texts(with_words.as_str());
        let ghost ws = regex_match_texts(WORD_BOUNDARY@, with_words@);
        let ghost texts = words@.map_values(|m: String| m@);
        assert(texts =~= ws);
        proof {
            let p = with_words@;
            assert forall|i: int, j: int|
                #![trigger regex_match_texts(WORD_BOUNDARY@, p.take(i)), regex_match_texts(WORD_BOUNDARY@, p.skip(j))]
                0 <= i <= j <= p.len() && (i < j || i == 0) && (forall|k: int| i <= k < j ==> unicode_whitespace(#[trigger] p[k]))
                    implies regex_match_texts(WORD_BOUNDARY@, p) == regex_match_texts(WORD_BOUNDARY@, p.take(i))
                    + regex_match_texts(WORD_BOUNDARY@, p.skip(j)) by {
                assert(texts == regex_match_texts(WORD_BOUNDARY@, p.take(i)) + regex_match_texts(WORD_BOUNDARY@, p.skip(j)));
            }
            assert(word_matches_split(p));
            assert forall|a: Seq<char>, b: Seq<char>|
                text@ == a + seq![' '] + b && syllable_total(a) + syllable_total(b) <= u32::MAX
                    implies syllable_count(text@) == syllable_count(a) + syllable_count(b) by {
                lemma_syllable_count_adds(a, b);
            }
        }
        let mut total: i128 = 0;
        let mut i: usize = 0;
        while i < words.len()
            invariant
                self.wf(),
                i <= words@.len(),
                words@.len() == ws.len(),
                words@.len() <= with_words@.len() + 1,
                texts == words@.map_values(|m: String| m@),
                texts == ws,
                total_len(texts) <= with_words@.len(),
                with_words@.len() <= usize::MAX,
                total == syllable_sum(ws.take(i as int)),
                -16 * (total_len(texts.take(i as int)) + 3 * i) <= total <= 16 * (total_len(texts.take(i as int)) + 3 * i),
            decreases words.len() - i,
        {
            let w = self.word(words[i].as_str());
            proof {
                assert(ws.take(i + 1).drop_last() =~= ws.take(i as int));
                assert(texts.take(i + 1).drop_last() =~= texts.take(i as int));
                lemma_total_len_prefix(texts, i + 1);
            }
            total = total + w;
            i = i + 1;
        }
        assert(ws.take(i as int) =~= ws);
        let clamped: i128 = if total < 0 { 0 } else { total };
        #[verifier::truncate]
        (clamped as u32)
    }
}

impl SyllableRegexes {
    /// The syllable gutter's label for one line of text: its syllable
    /// count, or nothing for a blank line.
    pub fn gutter_label(&self, line: &str) -> (r: String)
        requires
            self.wf(),
        ensures
            r@ == (if trim(line@).len() == 0 {
                Seq::<char>::empty()
            } else {
                crate::strings::decimal(syllable_count(line@) as nat)
            }),
    {
        let t = trim_str(line);
        if t.as_str().is_empty() {
            String::new()
        } else {
            let n = self.count(line);
            crate::strings::decimal_string(n as u64)
        }
    }
}

proof fn lemma_total_len_prefix(ws: Seq<Seq<char>>, i: int)
    requires
        0 <= i <= ws.len(),
    ensures
        total_len(ws.take(i)) <= total_len(ws),
    decreases ws.len() - i,
{
    if i == ws.len() {
        assert(ws.take(i) =~= ws);
    } else {
        lemma_total_len_prefix(ws.drop_last(), i);
        assert(ws.drop_last().take(i) =~= ws.take(i));
    }
}

/// Counts the syllables in `text` (which may hold several words or lines)
/// with the regex heuristics of `SyllableRegexes::count`; `None` only when
/// one of the heuristic patterns fails to compile.
/// Counts add up over a space: when `text` is `a`, a space, then `b`, the
/// count is that of `a` plus that of `b` (sums fitting a `u32`).
pub fn count_syllables(text: &str) -> (n: Option<u32>)
    ensures
        n == (if syllable_patterns_compile() { Some(syllable_count(text@)) } else { None::<u32> }),
        n matches Some(c) ==> forall|a: Seq<char>, b: Seq<char>|
            #![trigger syllable_count(a), syllable_count(b)]
            text@ == a + seq![' '] + b && syllable_total(a) + syllable_total(b) <= u32::MAX
                ==> c == syllable_count(a) + syllable_count(b),
{
    match SyllableRegexes::new() {
        Some(re) => Some(re.count(text)),
        None => None,
    }
}

} // verus!
