//! User-configurable editor behavior and its on-disk form: one `key=value`
//! line per setting. Reading skips lines it does not understand and keeps
//! the default for anything missing or malformed, so a settings file from
//! an older or newer version still loads; writing produces text that reads
//! back to the same settings.
use vstd::prelude::*;
use crate::strings::{append_str, ascii_digit, chars_of, string_of, decimal, decimal_string, lemma_decimal_digits, lemma_decimal_len, same_chars, digit_char};
use crate::text_stats::{digits_value, lemma_digits_value_grows, lemma_digits_value_nonneg};

verus! {

/// User-configurable app behavior, persisted across launches. New editors
/// read this when they are created; changing a setting takes effect for
/// tabs opened afterward (and for open tabs when the settings dialog
/// applies it).
#[derive(Clone, Copy, PartialEq, Eq, Debug, Structural)]
pub struct Settings {
    pub show_syllable_gutter: bool,
    pub rhyme_highlighting: bool,
    pub word_completion: bool,
    pub auto_indent: bool,
    pub tab_width: u32,
    pub git_autostage: bool,
}

/// The defaults: everything on but word completion (dictionary-only
/// completion misses most songwriting vocabulary, so it is opt-in), with
/// four-column tabs.
pub open spec fn default_settings() -> Settings {
    Settings {
        show_syllable_gutter: true,
        rhyme_highlighting: true,
        word_completion: false,
        auto_indent: true,
        tab_width: 4,
        git_autostage: true,
    }
}

impl Default for Settings {
    fn default() -> (r: Self)
        ensures
            r == default_settings(),
    {
        Settings {
            show_syllable_gutter: true,
            rhyme_highlighting: true,
            word_completion: false,
            auto_indent: true,
            tab_width: 4,
            git_autostage: true,
        }
    }
}

/// `l` without one trailing carriage return.
pub open spec fn strip_cr(l: Seq<char>) -> Seq<char> {
    if l.len() > 0 && l.last() == '\r' {
        l.drop_last()
    } else {
        l
    }
}

/// The position of the first `c` in `s`, or -1.
pub open spec fn first_index_of(s: Seq<char>, c: char) -> int
    decreases s.len(),
{
    if s.len() == 0 {
        -1
    } else if s[0] == c {
        0
    } else {
        let r = first_index_of(s.drop_first(), c);
        if r < 0 {
            -1
        } else {
            r + 1
        }
    }
}

/// `str::lines`: the text split at each `\n`, a `\r` right before a `\n`
/// dropped too, and no empty line after a final `\n`.
pub open spec fn text_lines(s: Seq<char>) -> Seq<Seq<char>>
    decreases s.len(),
{
    if s.len() == 0 {
        Seq::empty()
    } else {
        let i = first_index_of(s, '\n');
        if i < 0 {
            seq![s]
        } else {
            proof {
                lemma_first_index_of(s, '\n');
            }
            seq![strip_cr(s.take(i))] + text_lines(s.skip(i + 1))
        }
    }
}

/// `u32::from_str`: an optional `+` and then one or more ASCII digits whose
/// value fits in a `u32`; anything else is an error.
pub open spec fn parse_u32(s: Seq<char>) -> Option<u32> {
    let d = sign_stripped(s);
    if d.len() > 0 && all_ascii_digits(d) && digits_value(d) <= u32::MAX {
        Some(digits_value(d) as u32)
    } else {
        None
    }
}

/// `s` without a leading `+`.
pub open spec fn sign_stripped(s: Seq<char>) -> Seq<char> {
    if s.len() > 0 && s[0] == '+' {
        s.drop_first()
    } else {
        s
    }
}

/// Whether every character of `d` is an ASCII digit.
pub open spec fn all_ascii_digits(d: Seq<char>) -> bool {
    forall|k: int| 0 <= k < d.len() ==> ascii_digit(#[trigger] d[k])
}

/// `settings` after reading the setting `key` with the text `value`.
pub open spec fn apply_setting(settings: Settings, key: Seq<char>, value: Seq<char>) -> Settings {
    let on = value == "true"@;
    if key == "show_syllable_gutter"@ {
        Settings { show_syllable_gutter: on, ..settings }
    } else if key == "rhyme_highlighting"@ {
        Settings { rhyme_highlighting: on, ..settings }
    } else if key == "word_completion"@ {
        Settings { word_completion: on, ..settings }
    } else if key == "auto_indent"@ {
        Settings { auto_indent: on, ..settings }
    } else if key == "tab_width"@ {
        match parse_u32(value) {
            Some(n) => Settings { tab_width: n, ..settings },
            None => settings,
        }
    } else if key == "git_autostage"@ {
        Settings { git_autostage: on, ..settings }
    } else {
        settings
    }
}

/// `settings` after reading one line of a settings file: a line split at
/// its first `=` sets that key; a line without `=` changes nothing.
pub open spec fn apply_line(settings: Settings, line: Seq<char>) -> Settings {
    let i = first_index_of(line, '=');
    if i < 0 {
        settings
    } else {
        apply_setting(settings, line.take(i), line.skip(i + 1))
    }
}

/// `settings` after reading each of `lines` in turn.
pub open spec fn apply_lines(settings: Settings, lines: Seq<Seq<char>>) -> Settings
    decreases lines.len(),
{
    if lines.len() == 0 {
        settings
    } else {
        apply_lines(apply_line(settings, lines[0]), lines.drop_first())
    }
}

/// The settings a settings file's text describes, starting from the
/// defaults.
pub open spec fn settings_from_text(text: Seq<char>) -> Settings {
    apply_lines(default_settings(), text_lines(text))
}

/// `true` or `false`, as `bool`'s `Display` writes it.
pub open spec fn bool_text(b: bool) -> Seq<char> {
    if b {
        "true"@
    } else {
        "false"@
    }
}

/// The `key=value` lines that store `s`, one per setting.
pub open spec fn setting_lines(s: Settings) -> Seq<Seq<char>> {
    seq![
        "show_syllable_gutter"@ + seq!['='] + bool_text(s.show_syllable_gutter),
        "rhyme_highlighting"@ + seq!['='] + bool_text(s.rhyme_highlighting),
        "word_completion"@ + seq!['='] + bool_text(s.word_completion),
        "auto_indent"@ + seq!['='] + bool_text(s.auto_indent),
        "tab_width"@ + seq!['='] + decimal(s.tab_width as nat),
        "git_autostage"@ + seq!['='] + bool_text(s.git_autostage),
    ]
}

/// Lines written out, each followed by `\n`.
pub open spec fn joined_lines(ls: Seq<Seq<char>>) -> Seq<char>
    decreases ls.len(),
{
    if ls.len() == 0 {
        Seq::empty()
    } else {
        ls[0] + seq!['\n'] + joined_lines(ls.drop_first())
    }
}

/// The settings file's text for `s`.
pub open spec fn settings_text(s: Settings) -> Seq<char> {
    joined_lines(setting_lines(s))
}


/// `first_index_of` is the index of the first `c` in `s`, or -1.
pub proof fn lemma_first_index_of(s: Seq<char>, c: char)
    ensures
        -1 <= first_index_of(s, c) < s.len(),
        first_index_of(s, c) >= 0 ==> s[first_index_of(s, c)] == c,
        forall|k: int| 0 <= k < s.len() && (first_index_of(s, c) < 0 || k < first_index_of(s, c)) ==> #[trigger] s[k] != c,
    decreases s.len(),
{
    if s.len() > 0 && s[0] != c {
        lemma_first_index_of(s.drop_first(), c);
        assert forall|k: int| 0 <= k < s.len() && (first_index_of(s, c) < 0 || k < first_index_of(s, c)) implies #[trigger] s[k]
            != c by {
            if k > 0 {
                assert(s[k] == s.drop_first()[k - 1]);
            }
        }
    }
}

proof fn lemma_first_index_of_is(s: Seq<char>, c: char, i: int)
    requires
        0 <= i < s.len(),
        s[i] == c,
        forall|k: int| 0 <= k < i ==> #[trigger] s[k] != c,
    ensures
        first_index_of(s, c) == i,
    decreases s.len(),
{
    if i > 0 {
        assert forall|k: int| 0 <= k < i - 1 implies #[trigger] s.drop_first()[k] != c by {
            assert(s.drop_first()[k] == s[k + 1]);
        }
        lemma_first_index_of_is(s.drop_first(), c, i - 1);
    }
}

proof fn lemma_first_index_of_none(s: Seq<char>, c: char)
    requires
        forall|k: int| 0 <= k < s.len() ==> #[trigger] s[k] != c,
    ensures
        first_index_of(s, c) == -1,
    decreases s.len(),
{
    if s.len() > 0 {
        assert forall|k: int| 0 <= k < s.len() - 1 implies #[trigger] s.drop_first()[k] != c by {
            assert(s.drop_first()[k] == s[k + 1]);
        }
        lemma_first_index_of_none(s.drop_first(), c);
    }
}

/// `parse_u32` on a vector of characters.
fn parse_u32_chars(s: &Vec<char>, from: usize, to: usize) -> (r: Option<u32>)
    requires
        from <= to <= s@.len(),
    ensures
        r == parse_u32(s@.subrange(from as int, to as int)),
{
    let ghost v = s@.subrange(from as int, to as int);
    let mut start = from;
    if to > from && s[from] == '+' {
        start = from + 1;
    }
    let ghost d = s@.subrange(start as int, to as int);
    assert(d == sign_stripped(v));
    if start == to {
        return None;
    }
    let mut value: u64 = 0;
    let mut i = start;
    while i < to
        invariant
            from <= start <= i <= to <= s@.len(),
            d == s@.subrange(start as int, to as int),
            v == s@.subrange(from as int, to as int),
            d == sign_stripped(v),
            d.len() > 0,
            forall|k: int| 0 <= k < i - start ==> ascii_digit(#[trigger] d[k]),
            value == digits_value(d.take(i - start)),
            value <= u32::MAX,
        decreases to - i,
    {
        let c = s[i];
        assert(d[i - start] == c);
        if !('0' <= c && c <= '9') {
            assert(!ascii_digit(d[i - start]));
            return None;
        }
        let digit: u64 = (c as u32 - '0' as u32) as u64;
        assert(d.take(i - start + 1).drop_last() =~= d.take(i - start));
        assert(d.take(i - start + 1).last() == c);
        let next = value * 10 + digit;
        if next > 0xffff_ffff {
            proof {
                let t = d.take(i - start + 1);
                assert forall|k: int| 0 <= k < t.len() implies ascii_digit(#[trigger] t[k]) by {
                    assert(t[k] == d[k]);
                }
                if all_ascii_digits(d) {
                    lemma_digits_value_grows(d, i - start + 1);
                }
            }
            return None;
        }
        value = next;
        i = i + 1;
    }
    assert(d.take(d.len() as int) =~= d);
    Some(value as u32)
}

/// The characters of `s` from `from` up to `to` as a string.
fn chars_between(s: &Vec<char>, from: usize, to: usize) -> (r: Vec<char>)
    requires
        from <= to <= s@.len(),
    ensures
        r@ == s@.subrange(from as int, to as int),
{
    let mut out: Vec<char> = Vec::new();
    let mut i = from;
    while i < to
        invariant
            from <= i <= to <= s@.len(),
            out@ == s@.subrange(from as int, i as int),
        decreases to - i,
    {
        out.push(s[i]);
        i = i + 1;
        assert(out@ =~= s@.subrange(from as int, i as int));
    }
    out
}

/// `str::lines`: the lines of `contents`.
pub fn split_lines(contents: &str) -> (r: Vec<String>)
    ensures
        r@.map_values(|l: String| l@) == text_lines(contents@),
{
    let cs = chars_of(contents);
    let n = cs.len();
    let mut out: Vec<String> = Vec::new();
    let mut pos: usize = 0;
    assert(cs@.skip(0) =~= cs@);
    while pos < n
        invariant
            n == cs@.len(),
            cs@ == contents@,
            pos <= n,
            out@.map_values(|l: String| l@) + text_lines(cs@.skip(pos as int)) == text_lines(contents@),
        decreases n - pos,
    {
        let ghost rest = cs@.skip(pos as int);
        let ghost before = out@.map_values(|l: String| l@);
        let mut end = pos;
        while end < n && cs[end] != '\n'
            invariant
                pos <= end <= n == cs@.len(),
                rest == cs@.skip(pos as int),
                forall|k: int| 0 <= k < end - pos ==> #[trigger] rest[k] != '\n',
            decreases n - end,
        {
            assert(rest[end - pos] == cs@[end as int]);
            end = end + 1;
        }
        let mut line_end = end;
        if end < n && end > pos && cs[end - 1] == '\r' {
            line_end = end - 1;
        }
        let line = string_of(vstd::slice::slice_subrange(cs.as_slice(), pos, line_end));
        out.push(line);
        assert(out@.map_values(|l: String| l@) =~= before.push(cs@.subrange(pos as int, line_end as int)));
        if end == n {
            proof {
                lemma_first_index_of_none(rest, '\n');
                assert(rest =~= cs@.subrange(pos as int, n as int));
                assert(text_lines(rest) == seq![rest]);
                assert(cs@.skip(n as int) =~= Seq::<char>::empty());
                assert(text_lines(cs@.skip(n as int)) =~= Seq::<Seq<char>>::empty());
                assert(before + text_lines(rest) =~= before.push(rest));
            }
            pos = n;
        } else {
            proof {
                assert(rest[end - pos] == '\n');
                lemma_first_index_of_is(rest, '\n', end - pos);
                assert(rest.take(end - pos) =~= cs@.subrange(pos as int, end as int));
                assert(strip_cr(rest.take(end - pos)) =~= cs@.subrange(pos as int, line_end as int));
                assert(rest.skip(end - pos + 1) =~= cs@.skip(end + 1));
                assert(text_lines(rest) == seq![cs@.subrange(pos as int, line_end as int)] + text_lines(cs@.skip(end + 1)));
                assert(before + text_lines(rest) =~= before.push(cs@.subrange(pos as int, line_end as int)) + text_lines(
                    cs@.skip(end + 1),
                ));
            }
            pos = end + 1;
        }
    }
    assert(cs@.skip(pos as int) =~= Seq::<char>::empty());
    assert(text_lines(cs@.skip(pos as int)) =~= Seq::<Seq<char>>::empty());
    assert(out@.map_values(|l: String| l@) + Seq::<Seq<char>>::empty() =~= out@.map_values(|l: String| l@));
    out
}

impl Settings {
    /// `self` after reading one line (the characters of `s` from `from` up
    /// to `to`).
    fn apply_line_chars(self, s: &Vec<char>, from: usize, to: usize) -> (r: Settings)
        requires
            from <= to <= s@.len(),
        ensures
            r == apply_line(self, s@.subrange(from as int, to as int)),
    {
        let ghost line = s@.subrange(from as int, to as int);
        let mut eq = from;
        while eq < to && s[eq] != '='
            invariant
                from <= eq <= to <= s@.len(),
                line == s@.subrange(from as int, to as int),
                forall|k: int| 0 <= k < eq - from ==> #[trigger] line[k] != '=',
            decreases to - eq,
        {
            assert(line[eq - from] == s@[eq as int]);
            eq = eq + 1;
        }
        if eq == to {
            proof {
                lemma_first_index_of_none(line, '=');
            }
            return self;
        }
        proof {
            assert(line[eq - from] == '=');
            lemma_first_index_of_is(line, '=', eq - from);
        }
        let key = chars_between(s, from, eq);
        let value = chars_between(s, eq + 1, to);
        assert(key@ =~= line.take(eq - from));
        assert(value@ =~= line.skip(eq - from + 1));
        let tv = chars_of("true");
        let on = same_chars(value.as_slice(), tv.as_slice());
        let k1 = chars_of("show_syllable_gutter");
        let k2 = chars_of("rhyme_highlighting");
        let k3 = chars_of("word_completion");
        let k4 = chars_of("auto_indent");
        let k5 = chars_of("tab_width");
        let k6 = chars_of("git_autostage");
        let mut r = self;
        if same_chars(key.as_slice(), k1.as_slice()) {
            r.show_syllable_gutter = on;
        } else if same_chars(key.as_slice(), k2.as_slice()) {
            r.rhyme_highlighting = on;
        } else if same_chars(key.as_slice(), k3.as_slice()) {
            r.word_completion = on;
        } else if same_chars(key.as_slice(), k4.as_slice()) {
            r.auto_indent = on;
        } else if same_chars(key.as_slice(), k5.as_slice()) {
            assert(s@.subrange(eq + 1, to as int) == value@);
            match parse_u32_chars(s, eq + 1, to) {
                Some(n) => {
                    r.tab_width = n;
                },
                None => {},
            }
        } else if same_chars(key.as_slice(), k6.as_slice()) {
            r.git_autostage = on;
        }
        r
    }

    /// The settings a settings file's text describes: each `key=value`
    /// line it understands overrides the default; other lines, unknown
    /// keys and unparsable widths are skipped.
    pub fn from_text(contents: &str) -> (r: Settings)
        ensures
            r == settings_from_text(contents@),
    {
        let cs = chars_of(contents);
        let n = cs.len();
        let mut settings = Settings::default();
        let mut pos: usize = 0;
        assert(cs@.skip(0) =~= cs@);
        while pos < n
            invariant
                n == cs@.len(),
                cs@ == contents@,
                pos <= n,
                apply_lines(settings, text_lines(cs@.skip(pos as int))) == settings_from_text(contents@),
            decreases n - pos,
        {
            let ghost rest = cs@.skip(pos as int);
            let mut end = pos;
            while end < n && cs[end] != '\n'
                invariant
                    pos <= end <= n == cs@.len(),
                    rest == cs@.skip(pos as int),
                    forall|k: int| 0 <= k < end - pos ==> #[trigger] rest[k] != '\n',
                decreases n - end,
            {
                assert(rest[end - pos] == cs@[end as int]);
                end = end + 1;
            }
            let mut line_end = end;
            if end < n && end > pos && cs[end - 1] == '\r' {
                line_end = end - 1;
            }
            let ghost line = cs@.subrange(pos as int, line_end as int);
            if end == n {
                proof {
                    lemma_first_index_of_none(rest, '\n');
                    assert(rest =~= cs@.subrange(pos as int, n as int));
                    assert(text_lines(rest) == seq![rest]);
                    assert(seq![rest].drop_first() =~= Seq::<Seq<char>>::empty());
                    assert(cs@.skip(n as int) =~= Seq::<char>::empty());
                }
                settings = settings.apply_line_chars(&cs, pos, n);
                pos = n;
            } else {
                proof {
                    assert(rest[end - pos] == '\n');
                    lemma_first_index_of_is(rest, '\n', end - pos);
                    assert(rest.take(end - pos) =~= cs@.subrange(pos as int, end as int));
                    assert(strip_cr(rest.take(end - pos)) =~= line);
                    assert(rest.skip(end - pos + 1) =~= cs@.skip(end + 1));
                    let tl = text_lines(rest);
                    assert(tl[0] == line);
                    assert(tl.drop_first() =~= text_lines(cs@.skip(end + 1)));
                }
                settings = settings.apply_line_chars(&cs, pos, line_end);
                pos = end + 1;
            }
        }
        proof {
            assert(cs@.skip(pos as int) =~= Seq::<char>::empty());
        }
        settings
    }

    /// The settings file's text for these settings: one `key=value` line
    /// per setting.
    pub fn to_text(&self) -> (r: String)
        ensures
            r@ == settings_text(*self),
    {
        let mut r = String::new();
        let ghost ls = setting_lines(*self);
        assert(r@ == joined_lines(ls.take(0))) by {
            assert(ls.take(0) =~= Seq::<Seq<char>>::empty());
        }
        write_setting(&mut r, "show_syllable_gutter", bool_str(self.show_syllable_gutter), Ghost(ls), Ghost(0));
        write_setting(&mut r, "rhyme_highlighting", bool_str(self.rhyme_highlighting), Ghost(ls), Ghost(1));
        write_setting(&mut r, "word_completion", bool_str(self.word_completion), Ghost(ls), Ghost(2));
        write_setting(&mut r, "auto_indent", bool_str(self.auto_indent), Ghost(ls), Ghost(3));
        let w = decimal_string(self.tab_width as u64);
        write_setting(&mut r, "tab_width", w.as_str(), Ghost(ls), Ghost(4));
        write_setting(&mut r, "git_autostage", bool_str(self.git_autostage), Ghost(ls), Ghost(5));
        assert(ls.take(6) =~= ls);
        r
    }
}

proof fn lemma_joined_lines_push(ls: Seq<Seq<char>>, l: Seq<char>)
    ensures
        joined_lines(ls.push(l)) == joined_lines(ls) + l + seq!['\n'],
    decreases ls.len(),
{
    if ls.len() == 0 {
        assert(ls.push(l).drop_first() =~= Seq::<Seq<char>>::empty());
        assert(ls.push(l)[0] == l);
        assert(joined_lines(ls.push(l).drop_first()) =~= Seq::<char>::empty());
        assert(joined_lines(ls.push(l)) =~= l + seq!['\n']);
        assert(joined_lines(ls) =~= Seq::<char>::empty());
    } else {
        lemma_joined_lines_push(ls.drop_first(), l);
        assert(ls.push(l).drop_first() =~= ls.drop_first().push(l));
        assert(joined_lines(ls.push(l)) =~= joined_lines(ls) + l + seq!['\n']);
    }
}

/// Appends the line `key=value` and its newline: line `k` of `ls`, when
/// the lines before it are already written.
fn write_setting(out: &mut String, key: &str, value: &str, Ghost(ls): Ghost<Seq<Seq<char>>>, Ghost(k): Ghost<int>)
    requires
        0 <= k < ls.len(),
        old(out)@ == joined_lines(ls.take(k)),
        ls[k] == key@ + seq!['='] + value@,
    ensures
        final(out)@ == joined_lines(ls.take(k + 1)),
{
    append_str(out, key);
    append_str(out, "=");
    append_str(out, value);
    append_str(out, "\n");
    proof {
        reveal_strlit("=");
        reveal_strlit("\n");
        assert(ls.take(k + 1) =~= ls.take(k).push(ls[k]));
        lemma_joined_lines_push(ls.take(k), ls[k]);
        assert(out@ =~= joined_lines(ls.take(k)) + ls[k] + seq!['\n']);
    }
}

/// `"true"` or `"false"`.
fn bool_str(b: bool) -> (r: &'static str)
    ensures
        r@ == bool_text(b),
{
    if b {
        "true"
    } else {
        "false"
    }
}

proof fn lemma_digits_value_decimal(n: nat)
    ensures
        digits_value(decimal(n)) == n,
    decreases n,
{
    assert(digit_char(n % 10) as int == 48 + n % 10);
    assert('0' as int == 48);
    if n < 10 {
        assert(decimal(n).drop_last() =~= Seq::<char>::empty());
        assert(digits_value(decimal(n).drop_last()) == 0);
        assert(decimal(n).last() == digit_char(n));
        assert(digit_char(n) as int == 48 + n);
    }
    if n >= 10 {
        lemma_digits_value_decimal(n / 10);
        assert(decimal(n).drop_last() =~= decimal(n / 10));
        assert(decimal(n).last() == digit_char(n % 10));
        assert(digits_value(decimal(n)) == digits_value(decimal(n / 10)) * 10 + (n % 10));
        assert((n / 10) * 10 + n % 10 == n);
    }
}

proof fn lemma_parse_decimal(n: u32)
    ensures
        parse_u32(decimal(n as nat)) == Some(n),
{
    let d = decimal(n as nat);
    lemma_decimal_len(n as nat);
    lemma_decimal_digits(n as nat);
    assert(d[0] != '+');
    assert(sign_stripped(d) == d);
    assert(all_ascii_digits(d));
    lemma_digits_value_decimal(n as nat);
}

/// A line without newlines, not ending in a carriage return, followed by
/// `\n` is read as exactly that line.
proof fn lemma_lines_cons(l: Seq<char>, rest: Seq<char>)
    requires
        !l.contains('\n'),
        l.len() == 0 || l.last() != '\r',
    ensures
        text_lines(l + seq!['\n'] + rest) == seq![l] + text_lines(rest),
{
    let t = l + seq!['\n'] + rest;
    assert(t[l.len() as int] == '\n');
    assert forall|k: int| 0 <= k < l.len() implies #[trigger] t[k] != '\n' by {
        assert(t[k] == l[k]);
    }
    lemma_first_index_of_is(t, '\n', l.len() as int);
    assert(t.take(l.len() as int) =~= l);
    assert(t.skip(l.len() as int + 1) =~= rest);
}

/// How a `key=value` line splits when the key holds no `=`.
proof fn lemma_key_line(key: Seq<char>, value: Seq<char>)
    requires
        !key.contains('='),
    ensures
        first_index_of(key + seq!['='] + value, '=') == key.len(),
        (key + seq!['='] + value).take(key.len() as int) == key,
        (key + seq!['='] + value).skip(key.len() as int + 1) == value,
{
    let t = key + seq!['='] + value;
    assert(t[key.len() as int] == '=');
    assert forall|k: int| 0 <= k < key.len() implies #[trigger] t[k] != '=' by {
        assert(t[k] == key[k]);
    }
    lemma_first_index_of_is(t, '=', key.len() as int);
    assert(t.take(key.len() as int) =~= key);
    assert(t.skip(key.len() as int + 1) =~= value);
}

proof fn lemma_bool_text(b: bool)
    ensures
        (bool_text(b) == "true"@) == b,
        !bool_text(b).contains('\n'),
        bool_text(b).last() != '\r',
        bool_text(b).len() > 0,
{
    reveal_strlit("true");
    reveal_strlit("false");
    assert("false"@.len() != "true"@.len());
    assert(!"true"@.contains('\n'));
    assert(!"false"@.contains('\n'));
}

/// Newline-free lines, none ending in a carriage return, read back as
/// the same lines once written out.
proof fn lemma_joined_lines(ls: Seq<Seq<char>>)
    requires
        forall|i: int| 0 <= i < ls.len() ==> !(#[trigger] ls[i]).contains('\n') && (ls[i].len() == 0 || ls[i].last()
            != '\r'),
    ensures
        text_lines(joined_lines(ls)) == ls,
    decreases ls.len(),
{
    if ls.len() > 0 {
        let rest = ls.drop_first();
        assert forall|i: int| 0 <= i < rest.len() implies !(#[trigger] rest[i]).contains('\n') && (rest[i].len() == 0
            || rest[i].last() != '\r') by {
            assert(rest[i] == ls[i + 1]);
        }
        lemma_joined_lines(rest);
        lemma_lines_cons(ls[0], joined_lines(rest));
        assert(seq![ls[0]] + rest =~= ls);
    } else {
        assert(joined_lines(ls) =~= Seq::<char>::empty());
    }
}

/// A `key=value` line built from newline-free parts is newline-free and
/// ends with the value's last character.
proof fn lemma_line_shape(k: Seq<char>, v: Seq<char>)
    requires
        !k.contains('\n'),
        !v.contains('\n'),
        v.len() > 0,
        v.last() != '\r',
    ensures
        !(k + seq!['='] + v).contains('\n'),
        (k + seq!['='] + v).last() != '\r',
{
    let l = k + seq!['='] + v;
    if l.contains('\n') {
        let i = choose|i: int| 0 <= i < l.len() && l[i] == '\n';
        if i < k.len() {
            assert(l[i] == k[i]);
        } else if i > k.len() {
            assert(l[i] == v[i - k.len() - 1]);
        }
    }
    assert(l.last() == v.last());
}

/// The six keys: free of `=` and newlines, and of six different lengths.
proof fn lemma_keys()
    ensures
        !"show_syllable_gutter"@.contains('=') && !"show_syllable_gutter"@.contains('\n') && "show_syllable_gutter"@.len()
            == 20,
        !"rhyme_highlighting"@.contains('=') && !"rhyme_highlighting"@.contains('\n') && "rhyme_highlighting"@.len() == 18,
        !"word_completion"@.contains('=') && !"word_completion"@.contains('\n') && "word_completion"@.len() == 15,
        !"auto_indent"@.contains('=') && !"auto_indent"@.contains('\n') && "auto_indent"@.len() == 11,
        !"tab_width"@.contains('=') && !"tab_width"@.contains('\n') && "tab_width"@.len() == 9,
        !"git_autostage"@.contains('=') && !"git_autostage"@.contains('\n') && "git_autostage"@.len() == 13,
{
    reveal_strlit("show_syllable_gutter");
    reveal_strlit("rhyme_highlighting");
    reveal_strlit("word_completion");
    reveal_strlit("auto_indent");
    reveal_strlit("tab_width");
    reveal_strlit("git_autostage");
}

proof fn lemma_read_bool_line(st: Settings, key: Seq<char>, b: bool)
    requires
        !key.contains('='),
    ensures
        apply_line(st, key + seq!['='] + bool_text(b)) == apply_setting(st, key, bool_text(b)),
        (bool_text(b) == "true"@) == b,
{
    lemma_key_line(key, bool_text(b));
    lemma_bool_text(b);
}

/// Reading the six setting lines, in order, from any starting point gives
/// the settings they were written from.
proof fn lemma_read_setting_lines(s: Settings, st: Settings)
    ensures
        apply_lines(st, setting_lines(s)) == s,
{
    lemma_keys();
    let ls = setting_lines(s);
    lemma_read_bool_line(st, "show_syllable_gutter"@, s.show_syllable_gutter);
    let s1 = apply_line(st, ls[0]);
    assert(s1 == Settings { show_syllable_gutter: s.show_syllable_gutter, ..st });
    lemma_read_bool_line(s1, "rhyme_highlighting"@, s.rhyme_highlighting);
    let s2 = apply_line(s1, ls[1]);
    assert(s2 == Settings { rhyme_highlighting: s.rhyme_highlighting, ..s1 });
    lemma_read_bool_line(s2, "word_completion"@, s.word_completion);
    let s3 = apply_line(s2, ls[2]);
    assert(s3 == Settings { word_completion: s.word_completion, ..s2 });
    lemma_read_bool_line(s3, "auto_indent"@, s.auto_indent);
    let s4 = apply_line(s3, ls[3]);
    assert(s4 == Settings { auto_indent: s.auto_indent, ..s3 });
    lemma_key_line("tab_width"@, decimal(s.tab_width as nat));
    lemma_parse_decimal(s.tab_width);
    let s5 = apply_line(s4, ls[4]);
    assert(s5 == Settings { tab_width: s.tab_width, ..s4 });
    lemma_read_bool_line(s5, "git_autostage"@, s.git_autostage);
    let s6 = apply_line(s5, ls[5]);
    assert(s6 == Settings { git_autostage: s.git_autostage, ..s5 });
    assert(s6 == s);
    assert(ls.skip(5).drop_first() =~= ls.skip(6));
    assert(ls.skip(4).drop_first() =~= ls.skip(5));
    assert(ls.skip(3).drop_first() =~= ls.skip(4));
    assert(ls.skip(2).drop_first() =~= ls.skip(3));
    assert(ls.skip(1).drop_first() =~= ls.skip(2));
    assert(ls.drop_first() =~= ls.skip(1));
    assert(apply_lines(s6, ls.skip(6)) == s6);
    assert(apply_lines(s5, ls.skip(5)) == s6);
    assert(apply_lines(s4, ls.skip(4)) == s6);
    assert(apply_lines(s3, ls.skip(3)) == s6);
    assert(apply_lines(s2, ls.skip(2)) == s6);
    assert(apply_lines(s1, ls.skip(1)) == s6);
}

/// The settings text splits back into the six setting lines.
proof fn lemma_settings_text_lines(s: Settings)
    ensures
        text_lines(settings_text(s)) == setting_lines(s),
{
    lemma_keys();
    lemma_bool_text(s.show_syllable_gutter);
    lemma_bool_text(s.rhyme_highlighting);
    lemma_bool_text(s.word_completion);
    lemma_bool_text(s.auto_indent);
    lemma_bool_text(s.git_autostage);
    let v5 = decimal(s.tab_width as nat);
    lemma_decimal_len(s.tab_width as nat);
    lemma_decimal_digits(s.tab_width as nat);
    assert(!v5.contains('\n')) by {
        if v5.contains('\n') {
            let i = choose|i: int| 0 <= i < v5.len() && v5[i] == '\n';
            assert('0' <= v5[i] <= '9');
        }
    }
    assert(v5.last() != '\r') by {
        assert('0' <= v5[v5.len() - 1] <= '9');
    }
    lemma_line_shape("show_syllable_gutter"@, bool_text(s.show_syllable_gutter));
    lemma_line_shape("rhyme_highlighting"@, bool_text(s.rhyme_highlighting));
    lemma_line_shape("word_completion"@, bool_text(s.word_completion));
    lemma_line_shape("auto_indent"@, bool_text(s.auto_indent));
    lemma_line_shape("tab_width"@, v5);
    lemma_line_shape("git_autostage"@, bool_text(s.git_autostage));
    lemma_joined_lines(setting_lines(s));
}

/// Writing settings and reading the text back gives the same settings.
pub proof fn lemma_settings_round_trip(s: Settings)
    ensures
        settings_from_text(settings_text(s)) == s,
{
    lemma_settings_text_lines(s);
    lemma_read_setting_lines(s, default_settings());
}

} // verus!
