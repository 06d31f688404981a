//! Character classification and string plumbing shared by the text modules.
//!
//! The Unicode tables behind `char::is_alphanumeric` and friends are far too
//! large to restate, so what they answer outside ASCII gets a name (an
//! uninterpreted spec function), while the documented ASCII answers are
//! stated; a thin trusted wrapper ties each library call to both. The
//! ASCII-only helpers are short enough to define and prove directly.
use vstd::prelude::*;

verus! {

/// An ASCII letter, `A`-`Z` or `a`-`z`.
pub open spec fn ascii_letter(c: char) -> bool {
    ('a' <= c && c <= 'z') || ('A' <= c && c <= 'Z')
}

/// Every character of `s` is ASCII.
pub open spec fn ascii_chars(s: Seq<char>) -> bool {
    forall|i: int| 0 <= i < s.len() ==> (#[trigger] s[i] as u32) < 128
}

/// What `char::is_alphanumeric` answers for a character outside ASCII.
pub uninterp spec fn non_ascii_alphanumeric(c: char) -> bool;

/// What `char::is_alphabetic` answers for a character outside ASCII.
pub uninterp spec fn non_ascii_alphabetic(c: char) -> bool;

/// What `char::is_whitespace` answers for a character outside ASCII.
pub uninterp spec fn non_ascii_whitespace(c: char) -> bool;

/// What `str::to_lowercase` returns for a text holding a character outside
/// ASCII.
pub uninterp spec fn non_ascii_lowercase(s: Seq<char>) -> Seq<char>;

/// What `char::is_alphanumeric` answers for `c`: among ASCII characters
/// exactly the letters and digits.
pub open spec fn unicode_alphanumeric(c: char) -> bool {
    if (c as u32) < 128 {
        ascii_letter(c) || ascii_digit(c)
    } else {
        non_ascii_alphanumeric(c)
    }
}

/// What `char::is_alphabetic` answers for `c`: among ASCII characters
/// exactly the letters.
pub open spec fn unicode_alphabetic(c: char) -> bool {
    if (c as u32) < 128 {
        ascii_letter(c)
    } else {
        non_ascii_alphabetic(c)
    }
}

/// The ASCII characters with the Unicode `White_Space` property: space and
/// tab through carriage return.
pub open spec fn ascii_whitespace(c: char) -> bool {
    c == ' ' || ('\t' <= c && c <= '\r')
}

/// What `char::is_whitespace` answers for `c` (the `White_Space`
/// property).
pub open spec fn unicode_whitespace(c: char) -> bool {
    if (c as u32) < 128 {
        ascii_whitespace(c)
    } else {
        non_ascii_whitespace(c)
    }
}

/// What `str::to_lowercase` returns for a text with these characters: an
/// ASCII text is lowered letter by letter.
pub open spec fn unicode_lowercase(s: Seq<char>) -> Seq<char> {
    if ascii_chars(s) {
        s.map_values(|c: char| ascii_lower(c))
    } else {
        non_ascii_lowercase(s)
    }
}

/// Calls `char::is_alphanumeric`. std documents it as the `Alphabetic` or
/// `Numeric` property, which among ASCII characters holds of the letters
/// and digits only; outside ASCII the answer is named.
#[verifier::external_body]
pub(crate) fn is_alphanumeric(c: char) -> (r: bool)
    ensures
        (c as u32) < 128 ==> r == (ascii_letter(c) || ascii_digit(c)),
        (c as u32) >= 128 ==> r == non_ascii_alphanumeric(c),
{
    c.is_alphanumeric()
}

/// Calls `char::is_alphabetic` (the `Alphabetic` property): among ASCII
/// characters the letters; outside ASCII the answer is named.
#[verifier::external_body]
pub(crate) fn is_alphabetic(c: char) -> (r: bool)
    ensures
        (c as u32) < 128 ==> r == ascii_letter(c),
        (c as u32) >= 128 ==> r == non_ascii_alphabetic(c),
{
    c.is_alphabetic()
}

/// Calls `char::is_whitespace` (the `White_Space` property): among ASCII
/// characters space, tab, line feed, vertical tab, form feed and carriage
/// return; outside ASCII the answer is named.
#[verifier::external_body]
pub(crate) fn is_whitespace(c: char) -> (r: bool)
    ensures
        (c as u32) < 128 ==> r == ascii_whitespace(c),
        (c as u32) >= 128 ==> r == non_ascii_whitespace(c),
{
    c.is_whitespace()
}

/// Calls `str::to_lowercase`: an ASCII text comes back with `A`-`Z` mapped
/// to `a`-`z` one for one; the lowercase of any other text is named.
#[verifier::external_body]
pub(crate) fn to_lowercase(s: &str) -> (r: String)
    ensures
        ascii_chars(s@) ==> r@ == s@.map_values(|c: char| ascii_lower(c)),
        !ascii_chars(s@) ==> r@ == non_ascii_lowercase(s@),
{
    s.to_lowercase()
}

/// The characters of `s`, in order.
pub(crate) fn chars_of(s: &str) -> (r: Vec<char>)
    ensures
        r@ == s@,
{
    broadcast use vstd::string::axiom_spec_iter;
    let mut r: Vec<char> = Vec::new();
    for c in it: s.chars()
        invariant
            it.seq() == s@,
            r@ == it.seq().take(it.index() as int),
    {
        proof {
            assert(it.seq().take(it.index() + 1) =~= r@.push(c));
        }
        r.push(c);
    }
    assert(s@.take(s@.len() as int) =~= s@);
    r
}

/// Builds a `String` out of characters (`Iterator::collect` into `String`).
#[verifier::external_body]
pub(crate) fn string_of(cs: &[char]) -> (r: String)
    ensures
        r@ == cs@,
{
    cs.iter().collect()
}

/// Appends one character (`String::push`).
#[verifier::external_body]
pub(crate) fn push_char(s: &mut String, c: char)
    ensures
        final(s)@ == old(s)@.push(c),
{
    s.push(c)
}

/// `'0'..='9'`, as `char::is_ascii_digit` documents it.
pub open spec fn ascii_digit(c: char) -> bool {
    '0' <= c && c <= '9'
}

/// The ASCII vowel letters the rhyme heuristics anchor on, either case.
pub open spec fn vowel_letter(c: char) -> bool {
    let l = ascii_lower(c);
    l == 'a' || l == 'e' || l == 'i' || l == 'o' || l == 'u' || l == 'y'
}

/// `char::to_ascii_lowercase`: `A`-`Z` map to `a`-`z`, everything else is
/// unchanged.
pub open spec fn ascii_lower(c: char) -> char {
    if 'A' <= c && c <= 'Z' {
        ((c as u32) + 32) as char
    } else {
        c
    }
}

pub fn is_ascii_digit(c: char) -> (r: bool)
    ensures
        r == ascii_digit(c),
{
    '0' <= c && c <= '9'
}

pub fn lower_ascii(c: char) -> (r: char)
    ensures
        r == ascii_lower(c),
{
    if 'A' <= c && c <= 'Z' {
        let u: u32 = c as u32;
        char_from_u32_ascii(u + 32)
    } else {
        c
    }
}

/// The character with code `u`, for a code in the ASCII lowercase range.
fn char_from_u32_ascii(u: u32) -> (r: char)
    requires
        97 <= u <= 122,
    ensures
        r == u as char,
{
    let b: u8 = u as u8;
    b as char
}

pub fn is_vowel_letter(c: char) -> (r: bool)
    ensures
        r == vowel_letter(c),
{
    let l = lower_ascii(c);
    l == 'a' || l == 'e' || l == 'i' || l == 'o' || l == 'u' || l == 'y'
}

/// `s` with leading `White_Space` characters removed (`str::trim_start`).
pub open spec fn trim_start(s: Seq<char>) -> Seq<char>
    decreases s.len(),
{
    if s.len() > 0 && unicode_whitespace(s[0]) {
        trim_start(s.drop_first())
    } else {
        s
    }
}

/// `s` with trailing `White_Space` characters removed (`str::trim_end`).
pub open spec fn trim_end(s: Seq<char>) -> Seq<char>
    decreases s.len(),
{
    if s.len() > 0 && unicode_whitespace(s.last()) {
        trim_end(s.drop_last())
    } else {
        s
    }
}

/// `str::trim`: whitespace removed from both ends.
pub open spec fn trim(s: Seq<char>) -> Seq<char> {
    trim_end(trim_start(s))
}

proof fn lemma_trim_start_skip(s: Seq<char>, i: int)
    requires
        0 <= i <= s.len(),
        forall|k: int| 0 <= k < i ==> unicode_whitespace(#[trigger] s[k]),
    ensures
        trim_start(s) == trim_start(s.skip(i)),
    decreases i,
{
    if i == 0 {
        assert(s.skip(0) =~= s);
    } else {
        assert(unicode_whitespace(s[0]));
        assert(s.drop_first().skip(i - 1) =~= s.skip(i));
        assert forall|k: int| 0 <= k < i - 1 implies unicode_whitespace(#[trigger] s.drop_first()[k]) by {
            assert(s.drop_first()[k] == s[k + 1]);
        }
        lemma_trim_start_skip(s.drop_first(), i - 1);
    }
}

proof fn lemma_trim_end_take(s: Seq<char>, j: int)
    requires
        0 <= j <= s.len(),
        forall|k: int| j <= k < s.len() ==> unicode_whitespace(#[trigger] s[k]),
    ensures
        trim_end(s) == trim_end(s.take(j)),
    decreases s.len() - j,
{
    if j == s.len() {
        assert(s.take(j) =~= s);
    } else {
        assert(unicode_whitespace(s[s.len() - 1]));
        assert(s.drop_last().take(j) =~= s.take(j));
        assert forall|k: int| j <= k < s.len() - 1 implies unicode_whitespace(#[trigger] s.drop_last()[k]) by {
            assert(s.drop_last()[k] == s[k]);
        }
        lemma_trim_end_take(s.drop_last(), j);
    }
}

/// How many whitespace characters `s` starts with.
pub open spec fn lead_ws(s: Seq<char>) -> nat
    decreases s.len(),
{
    if s.len() > 0 && unicode_whitespace(s[0]) {
        1 + lead_ws(s.drop_first())
    } else {
        0
    }
}

/// How many whitespace characters `s` ends with.
pub open spec fn trail_ws(s: Seq<char>) -> nat
    decreases s.len(),
{
    if s.len() > 0 && unicode_whitespace(s.last()) {
        1 + trail_ws(s.drop_last())
    } else {
        0
    }
}

proof fn lemma_lead_ws(s: Seq<char>)
    ensures
        lead_ws(s) <= s.len(),
        forall|k: int| 0 <= k < lead_ws(s) ==> unicode_whitespace(#[trigger] s[k]),
        lead_ws(s) < s.len() ==> !unicode_whitespace(s[lead_ws(s) as int]),
        trim_start(s) == s.skip(lead_ws(s) as int),
    decreases s.len(),
{
    if s.len() > 0 && unicode_whitespace(s[0]) {
        let d = s.drop_first();
        lemma_lead_ws(d);
        assert forall|k: int| 0 <= k < lead_ws(s) implies unicode_whitespace(#[trigger] s[k]) by {
            if k > 0 {
                assert(s[k] == d[k - 1]);
            }
        }
        if lead_ws(s) < s.len() {
            assert(s[lead_ws(s) as int] == d[lead_ws(d) as int]);
        }
        assert(d.skip(lead_ws(d) as int) =~= s.skip(lead_ws(s) as int));
    } else {
        assert(s.skip(0) =~= s);
    }
}

proof fn lemma_trail_ws(s: Seq<char>)
    ensures
        trail_ws(s) <= s.len(),
        forall|k: int| s.len() - trail_ws(s) <= k < s.len() ==> unicode_whitespace(#[trigger] s[k]),
        trail_ws(s) < s.len() ==> !unicode_whitespace(s[s.len() - trail_ws(s) - 1]),
        trim_end(s) == s.take(s.len() - trail_ws(s)),
    decreases s.len(),
{
    if s.len() > 0 && unicode_whitespace(s.last()) {
        let d = s.drop_last();
        lemma_trail_ws(d);
        assert forall|k: int| s.len() - trail_ws(s) <= k < s.len() implies unicode_whitespace(#[trigger] s[k]) by {
            if k < s.len() - 1 {
                assert(s[k] == d[k]);
            }
        }
        if trail_ws(s) < s.len() {
            assert(s[s.len() - trail_ws(s) - 1] == d[d.len() - trail_ws(d) - 1]);
        }
        assert(d.take(d.len() - trail_ws(d)) =~= s.take(s.len() - trail_ws(s)));
    } else {
        assert(s.take(s.len() as int) =~= s);
    }
}

proof fn lemma_lead_ws_append(x: Seq<char>, y: Seq<char>)
    ensures
        lead_ws(x + y) == if lead_ws(x) < x.len() { lead_ws(x) } else { x.len() + lead_ws(y) },
    decreases x.len(),
{
    if x.len() == 0 {
        assert(x + y =~= y);
    } else {
        assert((x + y)[0] == x[0]);
        if unicode_whitespace(x[0]) {
            assert((x + y).drop_first() =~= x.drop_first() + y);
            lemma_lead_ws_append(x.drop_first(), y);
        }
    }
}

proof fn lemma_trail_ws_append(x: Seq<char>, y: Seq<char>)
    ensures
        trail_ws(x + y) == if trail_ws(y) < y.len() { trail_ws(y) } else { y.len() + trail_ws(x) },
    decreases y.len(),
{
    if y.len() == 0 {
        assert(x + y =~= x);
    } else {
        assert((x + y).last() == y.last());
        if unicode_whitespace(y.last()) {
            assert((x + y).drop_last() =~= x + y.drop_last());
            lemma_trail_ws_append(x, y.drop_last());
        }
    }
}

/// `trim` keeps what lies between the leading and the trailing whitespace;
/// a text of whitespace only trims to nothing.
proof fn lemma_trim_range(s: Seq<char>)
    ensures
        lead_ws(s) <= s.len(),
        lead_ws(s) == s.len() ==> trim(s).len() == 0,
        lead_ws(s) < s.len() ==> lead_ws(s) + trail_ws(s) < s.len() && trim(s) == s.subrange(
            lead_ws(s) as int,
            s.len() - trail_ws(s),
        ),
{
    lemma_lead_ws(s);
    let p = lead_ws(s) as int;
    let t = s.skip(p);
    if p < s.len() {
        assert(s =~= s.take(p) + t);
        lemma_trail_ws(t);
        assert(t[0] == s[p]);
        if trail_ws(t) == t.len() {
            assert(unicode_whitespace(t[0]));
        }
        lemma_trail_ws_append(s.take(p), t);
        assert(t.take(t.len() - trail_ws(t)) =~= s.subrange(p, s.len() - trail_ws(s)));
    } else {
        assert(t.len() == 0);
    }
}

proof fn lemma_joined_ws(a: Seq<char>, b: Seq<char>)
    ensures
        lead_ws(a + seq![' '] + b) == if lead_ws(a) < a.len() { lead_ws(a) } else { a.len() + 1 + lead_ws(b) },
        trail_ws(a + seq![' '] + b) == if trail_ws(b) < b.len() { trail_ws(b) } else { b.len() + 1 + trail_ws(a) },
{
    let sp = seq![' '];
    assert(unicode_whitespace(' '));
    assert(a + sp + b =~= a + (sp + b));
    lemma_lead_ws_append(a, sp + b);
    assert((sp + b).drop_first() =~= b);
    assert(lead_ws(sp + b) == 1 + lead_ws(b));
    lemma_trail_ws_append(a + sp, b);
    assert((a + sp).drop_last() =~= a);
    assert(trail_ws(a + sp) == 1 + trail_ws(a));
}

/// A text is all whitespace when read from either end.
proof fn lemma_blank_both_ends(x: Seq<char>)
    ensures
        lead_ws(x) == x.len() <==> trail_ws(x) == x.len(),
{
    lemma_lead_ws(x);
    lemma_trail_ws(x);
    if lead_ws(x) == x.len() && trail_ws(x) < x.len() {
        assert(unicode_whitespace(x[x.len() - trail_ws(x) - 1]));
    }
    if trail_ws(x) == x.len() && lead_ws(x) < x.len() {
        assert(unicode_whitespace(x[lead_ws(x) as int]));
    }
}

/// How `trim` treats two texts joined by a space: the joined text trims to
/// the trimmed parts with the whitespace `w` (the space and what surrounds
/// it) between them, or to just one part when the other is blank.
pub proof fn lemma_trim_joined(a: Seq<char>, b: Seq<char>) -> (w: Seq<char>)
    ensures
        w.len() > 0,
        forall|k: int| 0 <= k < w.len() ==> unicode_whitespace(#[trigger] w[k]),
        trim(a).len() == 0 && trim(b).len() == 0 ==> trim(a + seq![' '] + b).len() == 0,
        trim(a).len() == 0 && trim(b).len() > 0 ==> trim(a + seq![' '] + b) == trim(b),
        trim(a).len() > 0 && trim(b).len() == 0 ==> trim(a + seq![' '] + b) == trim(a),
        trim(a).len() > 0 && trim(b).len() > 0 ==> trim(a + seq![' '] + b) == trim(a) + w + trim(b),
{
    let sp = seq![' '];
    let s = a + sp + b;
    lemma_trim_range(a);
    lemma_trim_range(b);
    lemma_trim_range(s);
    lemma_joined_ws(a, b);
    lemma_blank_both_ends(a);
    lemma_blank_both_ends(b);
    let w = a.subrange(a.len() - trail_ws(a), a.len() as int) + sp + b.subrange(0, lead_ws(b) as int);
    assert forall|k: int| 0 <= k < w.len() implies unicode_whitespace(#[trigger] w[k]) by {
        lemma_lead_ws(b);
        lemma_trail_ws(a);
        if k < trail_ws(a) {
            assert(w[k] == a[a.len() - trail_ws(a) + k]);
        } else if k == trail_ws(a) {
            assert(w[k] == ' ');
        } else {
            assert(w[k] == b[k - trail_ws(a) - 1]);
        }
    }
    if lead_ws(a) < a.len() && lead_ws(b) < b.len() {
        assert(trim(s) =~= trim(a) + w + trim(b));
    } else if lead_ws(a) < a.len() {
        assert(trim(s) =~= trim(a));
    } else if lead_ws(b) < b.len() {
        assert(trim(s) =~= trim(b));
    }
    w
}

/// The characters of `cs` with surrounding whitespace removed.
pub fn trim_chars(cs: &[char]) -> (r: Vec<char>)
    ensures
        r@ == trim(cs@),
{
    let n = cs.len();
    let mut i: usize = 0;
    while i < n && is_whitespace(cs[i])
        invariant
            n == cs@.len(),
            i <= n,
            forall|k: int| 0 <= k < i ==> unicode_whitespace(#[trigger] cs@[k]),
        decreases n - i,
    {
        i = i + 1;
    }
    proof {
        lemma_trim_start_skip(cs@, i as int);
    }
    let ghost rest = cs@.skip(i as int);
    assert(i == n || !unicode_whitespace(rest[0]));
    assert(trim_start(rest) == rest);
    let mut j: usize = n;
    while j > i && is_whitespace(cs[j - 1])
        invariant
            n == cs@.len(),
            i <= j <= n,
            forall|k: int| j <= k < n ==> unicode_whitespace(#[trigger] cs@[k]),
        decreases j,
    {
        j = j - 1;
    }
    let mut out: Vec<char> = Vec::new();
    let mut k: usize = i;
    while k < j
        invariant
            i <= k <= j <= n,
            n == cs@.len(),
            out@ == cs@.subrange(i as int, k as int),
        decreases j - k,
    {
        out.push(cs[k]);
        k = k + 1;
    }
    proof {
        assert forall|m: int| (j - i) <= m < rest.len() implies unicode_whitespace(#[trigger] rest[m]) by {
            assert(rest[m] == cs@[m + i]);
        }
        lemma_trim_end_take(rest, j - i);
        assert(rest.take(j - i) =~= cs@.subrange(i as int, j as int));
    }
    out
}

/// `str::trim` on a string.
pub fn trim_str(s: &str) -> (r: String)
    ensures
        r@ == trim(s@),
{
    let cs = chars_of(s);
    let t = trim_chars(cs.as_slice());
    string_of(t.as_slice())
}


/// Whether two character sequences are equal.
pub fn same_chars(a: &[char], b: &[char]) -> (r: bool)
    ensures
        r == (a@ == b@),
{
    if a.len() != b.len() {
        return false;
    }
    let mut i: usize = 0;
    while i < a.len()
        invariant
            a@.len() == b@.len(),
            i <= a@.len(),
            forall|k: int| 0 <= k < i ==> a@[k] == b@[k],
        decreases a.len() - i,
    {
        if a[i] != b[i] {
            return false;
        }
        i = i + 1;
    }
    assert(a@ =~= b@);
    true
}

/// Whether two strings hold the same characters.
pub fn same_str(a: &str, b: &str) -> (r: bool)
    ensures
        r == (a@ == b@),
{
    let ac = chars_of(a);
    let bc = chars_of(b);
    same_chars(ac.as_slice(), bc.as_slice())
}

/// The ASCII digit for `d` (`0`-`9`).
pub open spec fn digit_char(d: nat) -> char {
    (48 + d) as char
}

/// The decimal representation of `n`, as `ToString` writes an unsigned
/// integer: no sign, no leading zeros, `"0"` for zero.
pub open spec fn decimal(n: nat) -> Seq<char>
    decreases n,
{
    if n < 10 {
        seq![digit_char(n)]
    } else {
        decimal(n / 10).push(digit_char(n % 10))
    }
}

/// A number's representation has at least two digits from ten on.
pub proof fn lemma_decimal_len(n: nat)
    ensures
        decimal(n).len() >= 1,
        n >= 10 ==> decimal(n).len() >= 2,
    decreases n,
{
    if n >= 10 {
        lemma_decimal_len(n / 10);
    }
}

/// Different numbers have different decimal representations.
pub proof fn lemma_decimal_injective(a: nat, b: nat)
    requires
        decimal(a) == decimal(b),
    ensures
        a == b,
    decreases a,
{
    lemma_decimal_len(a);
    lemma_decimal_len(b);
    if a < 10 && b < 10 {
        assert(decimal(a)[0] == digit_char(a));
        assert(decimal(b)[0] == digit_char(b));
    } else if a >= 10 && b >= 10 {
        assert(decimal(a).last() == digit_char(a % 10));
        assert(decimal(b).last() == digit_char(b % 10));
        assert(decimal(a).drop_last() =~= decimal(a / 10));
        assert(decimal(b).drop_last() =~= decimal(b / 10));
        lemma_decimal_injective(a / 10, b / 10);
    }
}

/// Every character of a decimal representation is a digit.
pub proof fn lemma_decimal_digits(n: nat)
    ensures
        forall|i: int| 0 <= i < decimal(n).len() ==> '0' <= #[trigger] decimal(n)[i] <= '9',
    decreases n,
{
    if n >= 10 {
        lemma_decimal_digits(n / 10);
        assert forall|i: int| 0 <= i < decimal(n).len() implies '0' <= #[trigger] decimal(n)[i] <= '9' by {
            if i < decimal(n / 10).len() {
                assert(decimal(n)[i] == decimal(n / 10)[i]);
            }
        }
    }
}

/// The digit character for `d`.
fn digit_for(d: u64) -> (r: char)
    requires
        d < 10,
    ensures
        r == digit_char(d as nat),
{
    let b: u8 = (48 + d) as u8;
    b as char
}

/// `n.to_string()` for an unsigned integer.
pub fn decimal_string(n: u64) -> (r: String)
    ensures
        r@ == decimal(n as nat),
    decreases n,
{
    if n < 10 {
        let mut s = String::new();
        push_char(&mut s, digit_for(n));
        assert(s@ =~= decimal(n as nat));
        s
    } else {
        let mut s = decimal_string(n / 10);
        push_char(&mut s, digit_for(n % 10));
        s
    }
}

/// Appends the characters of `s` to `out` (`String::push_str`).
pub fn append_str(out: &mut String, s: &str)
    ensures
        final(out)@ == old(out)@ + s@,
{
    let cs = chars_of(s);
    let ghost start = out@;
    let mut i: usize = 0;
    while i < cs.len()
        invariant
            cs@ == s@,
            i <= cs@.len(),
            out@ == start + cs@.take(i as int),
        decreases cs.len() - i,
    {
        assert(cs@.take(i + 1) =~= cs@.take(i as int).push(cs@[i as int]));
        push_char(out, cs[i]);
        i = i + 1;
    }
    assert(cs@.take(cs@.len() as int) =~= cs@);
}

/// `a` followed by `b`, as a new string.
pub fn concat_str(a: &str, b: &str) -> (r: String)
    ensures
        r@ == a@ + b@,
{
    let mut out = String::new();
    append_str(&mut out, a);
    append_str(&mut out, b);
    assert(Seq::<char>::empty() + a@ + b@ =~= a@ + b@);
    out
}

/// Lexicographic order on characters by code point — the order of the
/// names' UTF-8 bytes.
pub open spec fn chars_lt(a: Seq<char>, b: Seq<char>) -> bool
    decreases a.len(),
{
    if a.len() == 0 {
        b.len() > 0
    } else if b.len() == 0 {
        false
    } else if a[0] != b[0] {
        a[0] < b[0]
    } else {
        chars_lt(a.drop_first(), b.drop_first())
    }
}

/// No text sorts before itself.
pub proof fn lemma_chars_lt_irreflexive(a: Seq<char>)
    ensures
        !chars_lt(a, a),
    decreases a.len(),
{
    if a.len() > 0 {
        lemma_chars_lt_irreflexive(a.drop_first());
    }
}

/// The order of texts is transitive.
pub proof fn lemma_chars_lt_transitive(a: Seq<char>, b: Seq<char>, c: Seq<char>)
    requires
        chars_lt(a, b),
        chars_lt(b, c),
    ensures
        chars_lt(a, c),
    decreases a.len(),
{
    if a.len() > 0 && b.len() > 0 && c.len() > 0 && a[0] == b[0] && b[0] == c[0] {
        lemma_chars_lt_transitive(a.drop_first(), b.drop_first(), c.drop_first());
    }
}

/// Any two different texts are ordered one way or the other.
pub proof fn lemma_chars_lt_total(a: Seq<char>, b: Seq<char>)
    ensures
        chars_lt(a, b) || chars_lt(b, a) || a == b,
    decreases a.len(),
{
    if a.len() > 0 && b.len() > 0 && a[0] == b[0] {
        lemma_chars_lt_total(a.drop_first(), b.drop_first());
        if a.drop_first() == b.drop_first() {
            assert(a =~= seq![a[0]] + a.drop_first());
            assert(b =~= seq![b[0]] + b.drop_first());
        }
    } else if a.len() == 0 && b.len() == 0 {
        assert(a =~= b);
    }
}

/// Two texts are never each ordered before the other.
pub proof fn lemma_chars_lt_asymmetric(a: Seq<char>, b: Seq<char>)
    requires
        chars_lt(a, b),
    ensures
        !chars_lt(b, a),
{
    if chars_lt(b, a) {
        lemma_chars_lt_transitive(a, b, a);
        lemma_chars_lt_irreflexive(a);
    }
}

/// `chars_lt` on two character vectors.
pub fn chars_less(a: &Vec<char>, b: &Vec<char>) -> (r: bool)
    ensures
        r == chars_lt(a@, b@),
{
    let mut i: usize = 0;
    assert(a@.skip(0) =~= a@);
    assert(b@.skip(0) =~= b@);
    while i < a.len() && i < b.len() && a[i] == b[i]
        invariant
            i <= a@.len(),
            i <= b@.len(),
            chars_lt(a@, b@) == chars_lt(a@.skip(i as int), b@.skip(i as int)),
        decreases a.len() - i,
    {
        assert(a@.skip(i as int).drop_first() =~= a@.skip(i + 1));
        assert(b@.skip(i as int).drop_first() =~= b@.skip(i + 1));
        i = i + 1;
    }
    if i == a.len() {
        i < b.len()
    } else if i == b.len() {
        false
    } else {
        assert(a@.skip(i as int)[0] == a@[i as int]);
        assert(b@.skip(i as int)[0] == b@[i as int]);
        a[i] < b[i]
    }
}

} // verus!
