//! The rules behind the workspace's file tree: how names are shown, which
//! name a new or copied entry gets, when a move, paste or rename is refused
//! and where it lands, which folder entries are listed and in what order,
//! and how git statuses roll up to folders. The filesystem work itself
//! (existence checks, renames, copies, directory listings) is the
//! caller's; it passes in what it observed.
use vstd::prelude::*;
use vstd::string::StringSliceAdditionalSpecFns;
use crate::git::{GitFileStatus, priority, status_priority};
use crate::paths::{FsPath, file_name_of, is_prefix_of, joined, parent_of, root_part, single_component};
use crate::strings::{append_str, ascii_lower, chars_less, chars_lt, lemma_chars_lt_asymmetric, lemma_chars_lt_irreflexive, lemma_chars_lt_total, lemma_chars_lt_transitive, chars_of, lower_ascii, same_str, decimal, decimal_string, lemma_decimal_digits, lemma_decimal_injective, lemma_decimal_len, string_of, trim, trim_str};

verus! {

/// Every component is non-empty, and only the root component contains a
/// separator — true of any path built from `Path::components`.
pub open spec fn path_wf(p: Seq<Seq<char>>) -> bool {
    forall|i: int| 0 <= i < p.len() ==> (#[trigger] p[i]).len() > 0 && (p[i] == root_part() || !p[i].contains('/'))
}

/// Whether the last four bytes spell `.txt`, ignoring ASCII case.
pub open spec fn ends_with_txt(b: Seq<u8>) -> bool {
    &&& b.len() >= 4
    &&& b[b.len() - 4] == 46u8
    &&& (b[b.len() - 3] == 116u8 || b[b.len() - 3] == 84u8)
    &&& (b[b.len() - 2] == 120u8 || b[b.len() - 2] == 88u8)
    &&& (b[b.len() - 1] == 116u8 || b[b.len() - 1] == 84u8)
}

/// A name's bytes with a trailing `.txt` (any ASCII case) removed, when
/// something precedes it.
pub open spec fn txt_stripped(b: Seq<u8>) -> Seq<u8> {
    if b.len() > 4 && ends_with_txt(b) {
        b.take(b.len() - 4)
    } else {
        b
    }
}

/// In valid UTF-8, an ASCII byte always starts a character.
proof fn lemma_ascii_byte_is_boundary(b: Seq<u8>, i: int)
    requires
        vstd::utf8::valid_utf8(b),
        0 <= i < b.len(),
        b[i] < 0x80u8,
    ensures
        vstd::utf8::is_char_boundary(b, i),
    decreases b.len(),
{
    if i > 0 {
        let w = vstd::utf8::length_of_first_scalar(b);
        let rest = vstd::utf8::pop_first_scalar(b);
        assert(w <= i);
        assert(rest.len() == b.len() - w);
        assert(rest[i - w] == b[i]);
        lemma_ascii_byte_is_boundary(rest, i - w);
    }
}

/// Strips a trailing ".txt" (case-insensitively) — the implied default
/// extension in a plain-text lyrics workspace, hidden everywhere a file
/// name is shown or edited. Any other name comes back unchanged.
pub fn strip_txt_extension(name: &str) -> (r: &str)
    ensures
        r.spec_bytes() == txt_stripped(name.spec_bytes()),
{
    let b = name.as_bytes();
    let n = b.len();
    if n > 4 {
        if b[n - 4] == 46u8 && (b[n - 3] == 116u8 || b[n - 3] == 84u8) && (b[n - 2] == 120u8 || b[n - 2] == 88u8) && (
        b[n - 1] == 116u8 || b[n - 1] == 84u8) {
            proof {
                vstd::utf8::encode_utf8_valid_utf8(name@);
                lemma_ascii_byte_is_boundary(name.spec_bytes(), n - 4);
            }
            let (head, _tail) = name.split_at(n - 4);
            return head;
        }
    }
    name
}

/// The name tried on attempt `n` (from 1) when creating a new folder or
/// file: `New Folder`, `New Folder 2`, ... or `Untitled.txt`,
/// `Untitled 2.txt`, ...
pub open spec fn entry_candidate(is_dir: bool, n: nat) -> Seq<char> {
    if is_dir {
        if n <= 1 {
            "New Folder"@
        } else {
            "New Folder "@ + decimal(n)
        }
    } else {
        if n <= 1 {
            "Untitled.txt"@
        } else {
            "Untitled "@ + decimal(n) + ".txt"@
        }
    }
}

/// The name to try on attempt `n` for a new entry; the caller moves on to
/// `n + 1` while the candidate already exists.
pub fn new_entry_candidate(is_dir: bool, n: u64) -> (r: String)
    requires
        n >= 1,
    ensures
        r@ == entry_candidate(is_dir, n as nat),
{
    if is_dir {
        if n <= 1 {
            "New Folder".to_owned()
        } else {
            let mut r = "New Folder ".to_owned();
            let d = decimal_string(n);
            append_str(&mut r, d.as_str());
            r
        }
    } else {
        if n <= 1 {
            "Untitled.txt".to_owned()
        } else {
            let mut r = "Untitled ".to_owned();
            let d = decimal_string(n);
            append_str(&mut r, d.as_str());
            append_str(&mut r, ".txt");
            r
        }
    }
}

/// Each attempt tries a different name, so the search for a free name
/// never retries one it already found taken.
pub proof fn lemma_entry_candidates_distinct(is_dir: bool, a: nat, b: nat)
    requires
        1 <= a,
        1 <= b,
        a != b,
    ensures
        entry_candidate(is_dir, a) != entry_candidate(is_dir, b),
{
    reveal_strlit("New Folder");
    reveal_strlit("New Folder ");
    reveal_strlit("Untitled.txt");
    reveal_strlit("Untitled ");
    reveal_strlit(".txt");
    lemma_decimal_len(a);
    lemma_decimal_len(b);
    let ca = entry_candidate(is_dir, a);
    let cb = entry_candidate(is_dir, b);
    if ca == cb {
        if a >= 2 && b >= 2 {
            if is_dir {
                assert(ca.skip(11) =~= decimal(a));
                assert(cb.skip(11) =~= decimal(b));
            } else {
                assert(ca.subrange(9, ca.len() - 4) =~= decimal(a));
                assert(cb.subrange(9, cb.len() - 4) =~= decimal(b));
            }
            lemma_decimal_injective(a, b);
        } else {
            assert(ca.len() != cb.len());
        }
    }
}

/// The position of the last `.` in `s`, or -1.
pub open spec fn last_dot(s: Seq<char>) -> int
    decreases s.len(),
{
    if s.len() == 0 {
        -1
    } else if s.last() == '.' {
        s.len() - 1
    } else {
        last_dot(s.drop_last())
    }
}

/// `Path::file_stem` of a file name: the part before the last `.`, unless
/// there is none, the only `.` leads the name, or the name is `..`.
pub open spec fn file_stem_of(name: Seq<char>) -> Seq<char> {
    if name == seq!['.', '.'] || last_dot(name) <= 0 {
        name
    } else {
        name.take(last_dot(name))
    }
}

/// `Path::extension` of a file name: the part after the last `.`, in the
/// same cases where `file_stem_of` stops before it.
pub open spec fn extension_of(name: Seq<char>) -> Option<Seq<char>> {
    if name == seq!['.', '.'] || last_dot(name) <= 0 {
        None
    } else {
        Some(name.skip(last_dot(name) + 1))
    }
}

proof fn lemma_last_dot(s: Seq<char>)
    ensures
        -1 <= last_dot(s) < s.len(),
        last_dot(s) >= 0 ==> s[last_dot(s)] == '.',
        forall|i: int| last_dot(s) < i < s.len() ==> s[i] != '.',
    decreases s.len(),
{
    if s.len() > 0 && s.last() != '.' {
        lemma_last_dot(s.drop_last());
        assert forall|i: int| last_dot(s) < i < s.len() implies s[i] != '.' by {
            if i < s.len() - 1 {
                assert(s[i] == s.drop_last()[i]);
            }
        }
    }
}

/// The stem and extension of a file name (`Path::file_stem` and
/// `Path::extension`).
pub fn stem_and_extension(name: &str) -> (r: (String, Option<String>))
    ensures
        r.0@ == file_stem_of(name@),
        match r.1 {
            Some(e) => extension_of(name@) == Some(e@),
            None => extension_of(name@) is None,
        },
{
    let cs = chars_of(name);
    let n = cs.len();
    let mut i: usize = n;
    while i > 0 && cs[i - 1] != '.'
        invariant
            i <= n == cs@.len(),
            cs@ == name@,
            forall|k: int| i <= k < n ==> cs@[k] != '.',
        decreases i,
    {
        i = i - 1;
    }
    proof {
        lemma_last_dot(name@);
        reveal_strlit("..");
        assert(".."@ =~= seq!['.', '.']);
    }
    let dotdot = n == 2 && cs[0] == '.' && cs[1] == '.';
    assert(dotdot == (name@ == seq!['.', '.'])) by {
        if name@ == seq!['.', '.'] {
            assert(cs@[0] == '.' && cs@[1] == '.');
        }
        if dotdot {
            assert(name@ =~= seq!['.', '.']);
        }
    }
    if i > 0 {
        assert(cs@[i - 1] == '.');
        assert(last_dot(name@) == i - 1) by {
            if last_dot(name@) != i - 1 {
                if last_dot(name@) < i - 1 {
                    assert(name@[i - 1] != '.');
                } else {
                    assert(cs@[last_dot(name@)] != '.');
                }
            }
        }
    } else {
        assert(last_dot(name@) == -1) by {
            if last_dot(name@) >= 0 {
                assert(cs@[last_dot(name@)] != '.');
            }
        }
    }
    if dotdot || i <= 1 {
        return (string_of(cs.as_slice()), None);
    }
    let stem = string_of(vstd::slice::slice_subrange(cs.as_slice(), 0, i - 1));
    assert(cs@.subrange(0, i - 1) =~= name@.take(i - 1));
    let ext = string_of(vstd::slice::slice_subrange(cs.as_slice(), i, n));
    assert(cs@.subrange(i as int, n as int) =~= name@.skip(i as int));
    (stem, Some(ext))
}

/// The name tried on attempt `n` (from 1) when pasting a copy of the file
/// or folder called `name`: the name itself first, then `stem 2.ext`,
/// `stem 3.ext`, ... (`stem 2`, ... without an extension).
pub open spec fn copy_candidate(name: Seq<char>, n: nat) -> Seq<char> {
    if n <= 1 {
        name
    } else {
        match extension_of(name) {
            Some(ext) => file_stem_of(name) + " "@ + decimal(n) + "."@ + ext,
            None => file_stem_of(name) + " "@ + decimal(n),
        }
    }
}

/// The name to try on attempt `n` for a pasted copy of `name`; the caller
/// moves on to `n + 1` while the candidate already exists.
pub fn copy_name_candidate(name: &str, n: u64) -> (r: String)
    requires
        n >= 1,
    ensures
        r@ == copy_candidate(name@, n as nat),
{
    if n <= 1 {
        return name.to_owned();
    }
    let (stem, ext) = stem_and_extension(name);
    let mut r = stem;
    append_str(&mut r, " ");
    let d = decimal_string(n);
    append_str(&mut r, d.as_str());
    match ext {
        Some(e) => {
            append_str(&mut r, ".");
            append_str(&mut r, e.as_str());
        },
        None => {},
    }
    r
}

/// Each attempt from the second on tries a different name.
pub proof fn lemma_copy_candidates_distinct(name: Seq<char>, a: nat, b: nat)
    requires
        2 <= a,
        2 <= b,
        a != b,
    ensures
        copy_candidate(name, a) != copy_candidate(name, b),
{
    reveal_strlit(" ");
    reveal_strlit(".");
    let stem = file_stem_of(name);
    let ca = copy_candidate(name, a);
    let cb = copy_candidate(name, b);
    if ca == cb {
        let lo: int = stem.len() as int + 1;
        match extension_of(name) {
            Some(ext) => {
                assert(ca.subrange(lo, ca.len() - ext.len() - 1) =~= decimal(a));
                assert(cb.subrange(lo, cb.len() - ext.len() - 1) =~= decimal(b));
            },
            None => {
                assert(ca.skip(lo) =~= decimal(a));
                assert(cb.skip(lo) =~= decimal(b));
            },
        }
        lemma_decimal_injective(a, b);
    }
}

/// Where moving `src` into `target` would put it, or `None` when the move
/// is refused: `src` already sits directly in `target`, `target` is `src`
/// itself or lies inside it, or `src` names no file or folder.
pub open spec fn move_destination_spec(src: Seq<Seq<char>>, target: Seq<Seq<char>>) -> Option<Seq<Seq<char>>> {
    if parent_of(src) == Some(target) || is_prefix_of(src, target) {
        None
    } else {
        match file_name_of(src) {
            Some(name) => Some(joined(target, name)),
            None => None,
        }
    }
}

/// The destination of a move of `src` into the folder `target` (drag and
/// drop, or cut and paste), or `None` when the move is refused. The caller
/// still refuses when `src` is gone or the destination already exists.
pub fn move_destination(src: &FsPath, target: &FsPath) -> (r: Option<FsPath>)
    requires
        path_wf(src@),
    ensures
        match r {
            Some(d) => move_destination_spec(src@, target@) == Some(d@),
            None => move_destination_spec(src@, target@) is None,
        },
{
    match src.parent() {
        Some(p) => {
            if p.same(target) {
                return None;
            }
        },
        None => {},
    }
    if target.starts_with(src) {
        return None;
    }
    match src.file_name() {
        Some(name) => {
            assert(src@.last() == name@);
            assert(single_component(name@)) by {
                assert(src@[src@.len() - 1] == name@);
            }
            Some(target.join(name.as_str()))
        },
        None => None,
    }
}

/// Whether a paste of `src` into `target` is refused outright: the target
/// is `src` itself or inside it.
pub fn paste_refused(src: &FsPath, target: &FsPath) -> (r: bool)
    ensures
        r == is_prefix_of(src@, target@),
{
    target.starts_with(src)
}

/// Where attempt `n` of pasting a copy of `src` into `target` would put it,
/// or `None` when `src` names no file or folder.
pub fn copy_destination(src: &FsPath, target: &FsPath, n: u64) -> (r: Option<FsPath>)
    requires
        path_wf(src@),
        n >= 1,
    ensures
        match r {
            Some(d) => file_name_of(src@) is Some && d@ == joined(target@, copy_candidate(file_name_of(src@)->0, n as nat)),
            None => file_name_of(src@) is None,
        },
{
    match src.file_name() {
        Some(name) => {
            let cand = copy_name_candidate(name.as_str(), n);
            proof {
                assert(src@[src@.len() - 1] == name@);
                lemma_copy_candidate_component(name@, n as nat);
            }
            Some(target.join(cand.as_str()))
        },
        None => None,
    }
}

proof fn lemma_copy_candidate_component(name: Seq<char>, n: nat)
    requires
        single_component(name),
        n >= 1,
    ensures
        single_component(copy_candidate(name, n)),
{
    if n >= 2 {
        reveal_strlit(" ");
        reveal_strlit(".");
        lemma_last_dot(name);
        lemma_decimal_len(n);
        let c = copy_candidate(name, n);
        let stem = file_stem_of(name);
        assert forall|i: int| 0 <= i < c.len() implies c[i] != '/' by {
            lemma_decimal_digits(n);
            if i < stem.len() {
                assert(c[i] == stem[i]);
                assert(stem[i] == name[i]);
            } else if i == stem.len() {
            } else if i < stem.len() + 1 + decimal(n).len() {
                assert(c[i] == decimal(n)[i - stem.len() - 1]);
            } else if i == stem.len() + 1 + decimal(n).len() {
            } else {
                let ext = extension_of(name)->0;
                let k = i - stem.len() - 2 - decimal(n).len();
                assert(c[i] == ext[k]);
                assert(ext[k] == name[last_dot(name) + 1 + k]);
            }
        }
        assert(!c.contains('/'));
    }
}

/// Where the new path for entry `n` (from 1) of a new file or folder in
/// `parent` lies.
pub fn new_entry_destination(parent: &FsPath, is_dir: bool, n: u64) -> (r: FsPath)
    requires
        n >= 1,
    ensures
        r@ == joined(parent@, entry_candidate(is_dir, n as nat)),
{
    let name = new_entry_candidate(is_dir, n);
    proof {
        reveal_strlit("New Folder");
        reveal_strlit("New Folder ");
        reveal_strlit("Untitled.txt");
        reveal_strlit("Untitled ");
        reveal_strlit(".txt");
        lemma_decimal_digits(n as nat);
        let c = entry_candidate(is_dir, n as nat);
        assert forall|i: int| 0 <= i < c.len() implies c[i] != '/' by {
            if is_dir && n >= 2 && i >= 11 {
                assert(c[i] == decimal(n as nat)[i - 11]);
            } else if !is_dir && n >= 2 && 9 <= i < 9 + decimal(n as nat).len() {
                assert(c[i] == decimal(n as nat)[i - 9]);
            }
        }
        assert(!c.contains('/'));
    }
    parent.join(name.as_str())
}

/// The name a rename actually gives: the typed name trimmed, with `.txt`
/// added for a file when no extension was typed.
pub open spec fn final_rename_name(typed: Seq<char>, is_dir: bool) -> Seq<char> {
    let t = trim(typed);
    if !is_dir && !t.contains('.') {
        t + ".txt"@
    } else {
        t
    }
}

/// Where renaming `old` to the typed name leads, or `None` when nothing is
/// renamed: the trimmed name is empty or holds a path separator, `old` has
/// no parent, or the new path is the old one.
pub open spec fn rename_target_spec(old: Seq<Seq<char>>, is_dir: bool, typed: Seq<char>) -> Option<Seq<Seq<char>>> {
    let t = trim(typed);
    if t.len() == 0 || t.contains('/') || t.contains('\\') {
        None
    } else {
        match parent_of(old) {
            None => None,
            Some(p) => {
                let np = joined(p, final_rename_name(typed, is_dir));
                if np == old {
                    None
                } else {
                    Some(np)
                }
            },
        }
    }
}

/// The path an inline rename of `old` (a folder when `is_dir`) to `typed`
/// moves it to, or `None` when the rename does nothing.
pub fn rename_target(old: &FsPath, is_dir: bool, typed: &str) -> (r: Option<FsPath>)
    ensures
        match r {
            Some(p) => rename_target_spec(old@, is_dir, typed@) == Some(p@),
            None => rename_target_spec(old@, is_dir, typed@) is None,
        },
{
    let t = trim_str(typed);
    let cs = chars_of(t.as_str());
    let mut has_slash = false;
    let mut has_backslash = false;
    let mut has_dot = false;
    let mut i: usize = 0;
    while i < cs.len()
        invariant
            cs@ == t@,
            i <= cs@.len(),
            has_slash <==> (exists|k: int| 0 <= k < i && cs@[k] == '/'),
            has_backslash <==> (exists|k: int| 0 <= k < i && cs@[k] == '\\'),
            has_dot <==> (exists|k: int| 0 <= k < i && cs@[k] == '.'),
        decreases cs.len() - i,
    {
        let c = cs[i];
        if c == '/' {
            has_slash = true;
        }
        if c == '\\' {
            has_backslash = true;
        }
        if c == '.' {
            has_dot = true;
        }
        i = i + 1;
    }
    assert(has_slash == t@.contains('/'));
    assert(has_backslash == t@.contains('\\'));
    assert(has_dot == t@.contains('.'));
    if cs.len() == 0 || has_slash || has_backslash {
        return None;
    }
    let parent = match old.parent() {
        Some(p) => p,
        None => {
            return None;
        },
    };
    let mut name = t;
    if !is_dir && !has_dot {
        append_str(&mut name, ".txt");
    }
    proof {
        reveal_strlit(".txt");
        let f = final_rename_name(typed@, is_dir);
        assert(f == name@);
        assert forall|k: int| 0 <= k < f.len() implies f[k] != '/' by {
            if k < t@.len() {
                assert(f[k] == t@[k]);
            }
        }
        assert(!f.contains('/'));
    }
    let np = parent.join(name.as_str());
    if np.same(old) {
        None
    } else {
        Some(np)
    }
}

/// Dot-files and the build-output and dependency folders are never listed.
pub open spec fn hidden_entry(name: Seq<char>) -> bool {
    (name.len() > 0 && name[0] == '.') || name == "target"@ || name == "node_modules"@
}

/// A name with its ASCII letters lowercased (`OsStr::to_ascii_lowercase`).
pub open spec fn lowered(name: Seq<char>) -> Seq<char> {
    name.map_values(|c: char| ascii_lower(c))
}

/// A directory entry as listed: its name and whether it is a folder.
pub type EntryView = (Seq<char>, bool);

/// Whether entry `a` is listed strictly before `b`: folders before files,
/// then by case-insensitive (ASCII) name.
pub open spec fn entry_lt(a: EntryView, b: EntryView) -> bool {
    (a.1 && !b.1) || (a.1 == b.1 && chars_lt(lowered(a.0), lowered(b.0)))
}

/// Where a stable insertion puts `x` into `s`: before the first entry
/// that `x` strictly precedes.
pub open spec fn insert_pos(s: Seq<EntryView>, x: EntryView) -> int
    decreases s.len(),
{
    if s.len() == 0 {
        0
    } else if entry_lt(x, s[0]) {
        0
    } else {
        1 + insert_pos(s.drop_first(), x)
    }
}

/// `s` sorted by `entry_lt`, keeping entries that compare equal in the
/// order they came in (what `slice::sort_by` does).
pub open spec fn stable_sorted(s: Seq<EntryView>) -> Seq<EntryView>
    decreases s.len(),
{
    if s.len() == 0 {
        s
    } else {
        let r = stable_sorted(s.drop_last());
        r.insert(insert_pos(r, s.last()), s.last())
    }
}

/// The entries that are listed at all, in directory order.
pub open spec fn shown_entries(s: Seq<EntryView>) -> Seq<EntryView> {
    s.filter(|e: EntryView| !hidden_entry(e.0))
}

/// How a folder's entries are listed in the tree: hidden ones dropped,
/// the rest stably sorted with folders first and then by name.
pub open spec fn listed_entries(s: Seq<EntryView>) -> Seq<EntryView> {
    stable_sorted(shown_entries(s))
}

/// The views of a list of `(name, is_dir)` entries.
pub open spec fn entries_view(s: Seq<(String, bool)>) -> Seq<EntryView> {
    s.map_values(|e: (String, bool)| (e.0@, e.1))
}

/// `entry_lt` never holds both ways, and not holding one way chains with
/// holding the other: `!(y < x)` and `y < z` give `!(z < x)`... in the
/// form the sortedness proof needs.
proof fn lemma_entry_lt_order(x: EntryView, y: EntryView, z: EntryView)
    ensures
        !entry_lt(x, x),
        entry_lt(x, y) ==> !entry_lt(y, x),
        entry_lt(x, y) && entry_lt(y, z) ==> entry_lt(x, z),
        !entry_lt(x, y) && !entry_lt(y, z) ==> !entry_lt(x, z),
{
    lemma_chars_lt_irreflexive(lowered(x.0));
    if entry_lt(x, y) && x.1 == y.1 {
        lemma_chars_lt_asymmetric(lowered(x.0), lowered(y.0));
    }
    if entry_lt(x, y) && entry_lt(y, z) && x.1 == y.1 && y.1 == z.1 {
        lemma_chars_lt_transitive(lowered(x.0), lowered(y.0), lowered(z.0));
    }
    if !entry_lt(x, y) && !entry_lt(y, z) && entry_lt(x, z) {
        lemma_chars_lt_total(lowered(x.0), lowered(y.0));
        lemma_chars_lt_total(lowered(y.0), lowered(z.0));
        if x.1 == y.1 && y.1 == z.1 {
            if chars_lt(lowered(y.0), lowered(x.0)) && chars_lt(lowered(z.0), lowered(y.0)) {
                lemma_chars_lt_transitive(lowered(z.0), lowered(y.0), lowered(x.0));
                lemma_chars_lt_asymmetric(lowered(x.0), lowered(z.0));
            } else if chars_lt(lowered(y.0), lowered(x.0)) {
                lemma_chars_lt_asymmetric(lowered(x.0), lowered(z.0));
                assert(lowered(y.0) == lowered(z.0));
            } else {
                assert(lowered(x.0) == lowered(y.0));
                lemma_chars_lt_asymmetric(lowered(x.0), lowered(z.0));
                lemma_chars_lt_total(lowered(z.0), lowered(y.0));
            }
        }
    }
}

proof fn lemma_insert_pos(s: Seq<EntryView>, x: EntryView, k: int)
    requires
        0 <= k <= s.len(),
        forall|j: int| 0 <= j < k ==> !entry_lt(x, #[trigger] s[j]),
        k == s.len() || entry_lt(x, s[k]),
    ensures
        insert_pos(s, x) == k,
    decreases s.len(),
{
    if s.len() > 0 && k > 0 {
        assert(!entry_lt(x, s[0]));
        assert forall|j: int| 0 <= j < k - 1 implies !entry_lt(x, #[trigger] s.drop_first()[j]) by {
            assert(s.drop_first()[j] == s[j + 1]);
        }
        if k < s.len() {
            assert(s.drop_first()[k - 1] == s[k]);
        }
        lemma_insert_pos(s.drop_first(), x, k - 1);
    }
}

proof fn lemma_insert_pos_bounds(s: Seq<EntryView>, x: EntryView)
    ensures
        0 <= insert_pos(s, x) <= s.len(),
        forall|j: int| 0 <= j < insert_pos(s, x) ==> !entry_lt(x, #[trigger] s[j]),
        insert_pos(s, x) < s.len() ==> entry_lt(x, s[insert_pos(s, x)]),
    decreases s.len(),
{
    if s.len() > 0 && !entry_lt(x, s[0]) {
        lemma_insert_pos_bounds(s.drop_first(), x);
        assert forall|j: int| 0 <= j < insert_pos(s, x) implies !entry_lt(x, #[trigger] s[j]) by {
            if j > 0 {
                assert(s[j] == s.drop_first()[j - 1]);
            }
        }
    }
}

/// Sorted by `entry_lt`: no entry strictly precedes one listed before it.
pub open spec fn entries_sorted(s: Seq<EntryView>) -> bool {
    forall|i: int, j: int| 0 <= i < j < s.len() ==> !entry_lt(#[trigger] s[j], #[trigger] s[i])
}

/// The tree's listing order is a sort: folders come before files, names
/// ascend case-insensitively within each group, and the listing holds
/// exactly the entries that are not hidden.
pub proof fn lemma_listed_entries_sorted(s: Seq<EntryView>)
    ensures
        entries_sorted(listed_entries(s)),
        listed_entries(s).to_multiset() == shown_entries(s).to_multiset(),
        forall|i: int| 0 <= i < listed_entries(s).len() ==> !hidden_entry(#[trigger] listed_entries(s)[i].0),
{
    lemma_stable_sorted(shown_entries(s));
    let t = shown_entries(s);
    assert forall|i: int| 0 <= i < listed_entries(s).len() implies !hidden_entry(#[trigger] listed_entries(s)[i].0) by {
        broadcast use vstd::seq_lib::to_multiset_contains;
        assert(listed_entries(s).contains(listed_entries(s)[i]));
        assert(listed_entries(s).to_multiset().count(listed_entries(s)[i]) > 0);
        assert(t.to_multiset().count(listed_entries(s)[i]) > 0);
        assert(t.contains(listed_entries(s)[i]));
        let j = choose|j: int| 0 <= j < t.len() && t[j] == listed_entries(s)[i];
        s.lemma_filter_pred(|e: EntryView| !hidden_entry(e.0), j);
    }
}

proof fn lemma_stable_sorted(s: Seq<EntryView>)
    ensures
        entries_sorted(stable_sorted(s)),
        stable_sorted(s).to_multiset() == s.to_multiset(),
        stable_sorted(s).len() == s.len(),
    decreases s.len(),
{
    broadcast use vstd::seq_lib::to_multiset_insert, vstd::seq_lib::to_multiset_build;
    if s.len() > 0 {
        let r = stable_sorted(s.drop_last());
        lemma_stable_sorted(s.drop_last());
        let x = s.last();
        let k = insert_pos(r, x);
        lemma_insert_pos_bounds(r, x);
        let q = r.insert(k, x);
        assert(s =~= s.drop_last().push(x));
        assert forall|i: int, j: int| 0 <= i < j < q.len() implies !entry_lt(#[trigger] q[j], #[trigger] q[i]) by {
            if j < k {
                assert(q[i] == r[i] && q[j] == r[j]);
            } else if i > k {
                assert(q[i] == r[i - 1] && q[j] == r[j - 1]);
            } else if i == k {
                assert(q[j] == r[j - 1]);
                assert(entry_lt(x, r[k]));
                if j - 1 > k {
                    lemma_entry_lt_order(x, r[k], r[j - 1]);
                    lemma_entry_lt_order(r[j - 1], r[k], x);
                    lemma_entry_lt_order(x, r[j - 1], r[j - 1]);
                }
                lemma_entry_lt_order(x, r[j - 1], x);
            } else if j == k {
                assert(q[i] == r[i]);
                assert(!entry_lt(x, r[i]));
            } else {
                assert(q[i] == r[i] && q[j] == r[j - 1]);
                assert(i < j - 1);
            }
        }
    }
}

/// `name` with its ASCII letters lowercased.
fn lowered_chars(name: &str) -> (r: Vec<char>)
    ensures
        r@ == lowered(name@),
{
    let cs = chars_of(name);
    let mut out: Vec<char> = Vec::new();
    let mut i: usize = 0;
    while i < cs.len()
        invariant
            cs@ == name@,
            i <= cs@.len(),
            out@ =~= cs@.take(i as int).map_values(|c: char| ascii_lower(c)),
        decreases cs.len() - i,
    {
        out.push(lower_ascii(cs[i]));
        i = i + 1;
        assert(out@ =~= cs@.take(i as int).map_values(|c: char| ascii_lower(c)));
    }
    assert(cs@.take(cs@.len() as int) =~= cs@);
    out
}

/// Whether a directory entry is left out of the tree.
pub fn is_hidden_entry(name: &str) -> (r: bool)
    ensures
        r == hidden_entry(name@),
{
    let cs = chars_of(name);
    (cs.len() > 0 && cs[0] == '.') || same_str(name, "target") || same_str(name, "node_modules")
}

/// The entries of one folder as the tree lists them: hidden ones dropped,
/// folders first, then by case-insensitive name, ties kept in the order
/// given.
pub fn listed_folder_entries(items: Vec<(String, bool)>) -> (r: Vec<(String, bool)>)
    ensures
        entries_view(r@) == listed_entries(entries_view(items@)),
{
    let ghost iv = entries_view(items@);
    let mut out: Vec<(String, bool)> = Vec::new();
    let mut keys: Vec<Vec<char>> = Vec::new();
    let mut i: usize = 0;
    while i < items.len()
        invariant
            iv == entries_view(items@),
            i <= items@.len(),
            entries_view(out@) == stable_sorted(shown_entries(iv.take(i as int))),
            keys@.len() == out@.len(),
            forall|j: int| 0 <= j < keys@.len() ==> (#[trigger] keys@[j])@ == lowered(out@[j].0@),
        decreases items.len() - i,
    {
        let ghost sv = entries_view(out@);
        let ghost x = iv[i as int];
        assert(iv.take(i + 1).drop_last() =~= iv.take(i as int));
        assert(iv.take(i + 1).last() == x);
        let name = &items[i].0;
        let is_dir = items[i].1;
        let ghost t0 = shown_entries(iv.take(i as int));
        let ghost t1 = shown_entries(iv.take(i + 1));
        assert(x == (name@, is_dir));
        proof {
            assert(iv.take(i + 1) =~= iv.take(i as int).push(x));
            iv.take(i as int).lemma_filter_push(x, |e: EntryView| !hidden_entry(e.0));
        }
        if !is_hidden_entry(name.as_str()) {
            assert(t1 == t0.push(x));
            assert(t1.drop_last() =~= t0);
            assert(t1.last() == x);
            let key = lowered_chars(name.as_str());
            let mut k: usize = 0;
            while k < out.len() && !((is_dir && !out[k].1) || (is_dir == out[k].1 && chars_less(&key, &keys[k])))
                invariant
                    k <= out@.len(),
                    keys@.len() == out@.len(),
                    forall|j: int| 0 <= j < keys@.len() ==> (#[trigger] keys@[j])@ == lowered(out@[j].0@),
                    sv == entries_view(out@),
                    key@ == lowered(x.0),
                    x == (name@, is_dir),
                    forall|j: int| 0 <= j < k ==> !entry_lt(x, #[trigger] sv[j]),
                decreases out.len() - k,
            {
                k = k + 1;
            }
            proof {
                lemma_insert_pos(sv, x, k as int);
            }
            let ghost keys_before = keys@;
            let ghost out_before = out@;
            out.insert(k, (name.clone(), is_dir));
            keys.insert(k, key);
            assert(entries_view(out@) =~= sv.insert(k as int, x));
            assert(stable_sorted(t1) == sv.insert(insert_pos(sv, x), x));
            assert forall|j: int| 0 <= j < keys@.len() implies (#[trigger] keys@[j])@ == lowered(out@[j].0@) by {
                if j > k as int {
                    assert(keys@[j] == keys_before[j - 1]);
                    assert(out@[j] == out_before[j - 1]);
                } else if j < k as int {
                    assert(keys@[j] == keys_before[j]);
                    assert(out@[j] == out_before[j]);
                }
            }
        } else {
            assert(t1 == t0);
        }
        i = i + 1;
    }
    assert(iv.take(i as int) =~= iv);
    out
}

/// A path and the status recorded for it.
pub type StatusEntry = (Seq<Seq<char>>, GitFileStatus);

/// The status recorded for `k`: the last entry for that path.
pub open spec fn status_lookup(s: Seq<StatusEntry>, k: Seq<Seq<char>>) -> Option<GitFileStatus>
    decreases s.len(),
{
    if s.len() == 0 {
        None
    } else if s.last().0 == k {
        Some(s.last().1)
    } else {
        status_lookup(s.drop_last(), k)
    }
}

/// No path is recorded twice.
pub open spec fn distinct_paths(s: Seq<StatusEntry>) -> bool {
    forall|i: int, j: int| 0 <= i < j < s.len() ==> (#[trigger] s[i]).0 != (#[trigger] s[j]).0
}

/// `c` and the folders above it, stopping after `root` (or at the top).
pub open spec fn chain_from(c: Seq<Seq<char>>, root: Seq<Seq<char>>) -> Seq<Seq<Seq<char>>>
    decreases c.len(), 1int,
{
    if c == root {
        seq![c]
    } else {
        seq![c] + ancestors(c, root)
    }
}

/// The folders above `p` that a status propagates to: every parent in
/// turn, up to and including `root` (or up to the top when `p` is not
/// under `root`).
pub open spec fn ancestors(p: Seq<Seq<char>>, root: Seq<Seq<char>>) -> Seq<Seq<Seq<char>>>
    decreases p.len(), 0int,
{
    if p.len() > 0 && p.last() != root_part() {
        chain_from(p.drop_last(), root)
    } else {
        Seq::empty()
    }
}

/// The status a folder holds after one more descendant's status reached
/// it: the higher-priority of the two.
pub open spec fn raised(cur: Option<GitFileStatus>, s: GitFileStatus) -> GitFileStatus {
    match cur {
        None => s,
        Some(c) => if priority(s) > priority(c) {
            s
        } else {
            c
        },
    }
}

/// The status of `k` once the first `i` recorded statuses have been
/// propagated to their folders.
pub open spec fn rolled_up(leaves: Seq<StatusEntry>, root: Seq<Seq<char>>, i: int, k: Seq<Seq<char>>) -> Option<
    GitFileStatus,
>
    decreases i,
{
    if i <= 0 {
        status_lookup(leaves, k)
    } else {
        let prev = rolled_up(leaves, root, i - 1, k);
        if ancestors(leaves[i - 1].0, root).contains(k) {
            Some(raised(prev, leaves[i - 1].1))
        } else {
            prev
        }
    }
}

/// The uncommitted-change status of each path, as the file tree colors it.
pub struct StatusMap {
    entries: Vec<(FsPath, GitFileStatus)>,
}

impl View for StatusMap {
    type V = Seq<StatusEntry>;

    closed spec fn view(&self) -> Seq<StatusEntry> {
        self.entries@.map_values(|e: (FsPath, GitFileStatus)| (e.0@, e.1))
    }
}

proof fn lemma_lookup_distinct(s: Seq<StatusEntry>, k: Seq<Seq<char>>)
    requires
        distinct_paths(s),
    ensures
        forall|j: int| 0 <= j < s.len() && (#[trigger] s[j]).0 == k ==> status_lookup(s, k) == Some(s[j].1),
        (forall|j: int| 0 <= j < s.len() ==> (#[trigger] s[j]).0 != k) ==> status_lookup(s, k) is None,
    decreases s.len(),
{
    if s.len() > 0 {
        let t = s.drop_last();
        assert(distinct_paths(t)) by {
            assert forall|i: int, j: int| 0 <= i < j < t.len() implies (#[trigger] t[i]).0 != (#[trigger] t[j]).0 by {
                assert(t[i] == s[i] && t[j] == s[j]);
            }
        }
        lemma_lookup_distinct(t, k);
        assert forall|j: int| 0 <= j < s.len() && (#[trigger] s[j]).0 == k implies status_lookup(s, k) == Some(s[j].1) by {
            if j < s.len() - 1 {
                assert(s[j] == t[j]);
                assert(s.last().0 != k);
            }
        }
        if forall|j: int| 0 <= j < s.len() ==> (#[trigger] s[j]).0 != k {
            assert(s.last().0 != k);
            assert forall|j: int| 0 <= j < t.len() implies (#[trigger] t[j]).0 != k by {
                assert(t[j] == s[j]);
            }
        }
    }
}

impl StatusMap {
    /// No path is recorded twice.
    pub closed spec fn wf(&self) -> bool {
        distinct_paths(self@)
    }

    /// An empty map.
    pub fn new() -> (r: StatusMap)
        ensures
            r.wf(),
            r@ == Seq::<StatusEntry>::empty(),
    {
        let r = StatusMap { entries: Vec::new() };
        assert(r@ =~= Seq::<StatusEntry>::empty());
        r
    }

    /// How many paths have a status.
    pub fn len(&self) -> (r: usize)
        ensures
            r == self@.len(),
    {
        self.entries.len()
    }

    /// Whether no path has a status.
    pub fn is_empty(&self) -> (r: bool)
        ensures
            r == (self@.len() == 0),
    {
        self.entries.len() == 0
    }

    /// The index of `path`'s entry, if it has one.
    fn find(&self, path: &FsPath) -> (r: Option<usize>)
        ensures
            match r {
                Some(j) => j < self@.len() && self@[j as int].0 == path@,
                None => forall|j: int| 0 <= j < self@.len() ==> (#[trigger] self@[j]).0 != path@,
            },
    {
        let mut j: usize = 0;
        while j < self.entries.len()
            invariant
                j <= self.entries@.len(),
                forall|i: int| 0 <= i < j ==> (#[trigger] self@[i]).0 != path@,
            decreases self.entries.len() - j,
        {
            assert(self@[j as int].0 == self.entries@[j as int].0@);
            if self.entries[j].0.same(path) {
                return Some(j);
            }
            j = j + 1;
        }
        None
    }

    /// The status recorded for `path` (`HashMap::get`).
    pub fn get(&self, path: &FsPath) -> (r: Option<GitFileStatus>)
        requires
            self.wf(),
        ensures
            r == status_lookup(self@, path@),
    {
        proof {
            lemma_lookup_distinct(self@, path@);
        }
        match self.find(path) {
            Some(j) => {
                assert(self@[j as int].1 == self.entries@[j as int].1);
                Some(self.entries[j].1)
            },
            None => None,
        }
    }

    /// Records `status` for `path`, replacing any earlier status for it
    /// (`HashMap::insert`).
    pub fn insert(&mut self, path: FsPath, status: GitFileStatus)
        requires
            old(self).wf(),
        ensures
            final(self).wf(),
            forall|k: Seq<Seq<char>>| #[trigger] status_lookup(final(self)@, k) == (if k == path@ {
                Some(status)
            } else {
                status_lookup(old(self)@, k)
            }),
    {
        let ghost before = self@;
        proof {
            lemma_lookup_distinct(before, path@);
        }
        let ghost pv = path@;
        let ghost mut idx: int = 0;
        match self.find(&path) {
            Some(j) => {
                self.entries.set(j, (path, status));
                assert(self@ =~= before.update(j as int, (pv, status)));
                proof {
                    idx = j as int;
                }
            },
            None => {
                self.entries.push((path, status));
                assert(self@ =~= before.push((pv, status)));
                proof {
                    idx = before.len() as int;
                }
            },
        }
        assert(0 <= idx < self@.len() && self@[idx] == (pv, status));
        assert(distinct_paths(self@)) by {
            assert forall|a: int, b: int| 0 <= a < b < self@.len() implies (#[trigger] self@[a]).0 != (#[trigger] self@[b]).0 by {
                if a < before.len() && b < before.len() {
                }
            }
        }
        assert forall|k: Seq<Seq<char>>| #[trigger] status_lookup(self@, k) == (if k == pv {
            Some(status)
        } else {
            status_lookup(before, k)
        }) by {
            lemma_lookup_distinct(self@, k);
            lemma_lookup_distinct(before, k);
            if k != pv {
                if exists|j: int| 0 <= j < before.len() && (#[trigger] before[j]).0 == k {
                    let j = choose|j: int| 0 <= j < before.len() && (#[trigger] before[j]).0 == k;
                    assert(self@[j] == before[j]);
                } else {
                    assert forall|j: int| 0 <= j < self@.len() implies (#[trigger] self@[j]).0 != k by {
                        if j < before.len() {
                            assert(self@[j] == before[j] || self@[j].0 == pv);
                        }
                    }
                }
            } else {
                assert(self@[idx].0 == k);
            }
        }
    }

    /// A copy of the map.
    pub fn copy(&self) -> (r: StatusMap)
        requires
            self.wf(),
        ensures
            r.wf(),
            r@ == self@,
    {
        let mut entries: Vec<(FsPath, GitFileStatus)> = Vec::new();
        let mut j: usize = 0;
        while j < self.entries.len()
            invariant
                j <= self.entries@.len(),
                entries@.map_values(|e: (FsPath, GitFileStatus)| (e.0@, e.1)) =~= self@.take(j as int),
            decreases self.entries.len() - j,
        {
            let p = self.entries[j].0.duplicate();
            let ghost before = entries@;
            entries.push((p, self.entries[j].1));
            assert(self@.take(j + 1) =~= self@.take(j as int).push(self@[j as int]));
            assert(entries@.map_values(|e: (FsPath, GitFileStatus)| (e.0@, e.1)) =~= before.map_values(
                |e: (FsPath, GitFileStatus)| (e.0@, e.1),
            ).push(self@[j as int]));
            j = j + 1;
        }
        assert(self@.take(j as int) =~= self@);
        StatusMap { entries }
    }

    /// Every recorded status propagated up to the folders above it (up to
    /// and including `root`), each folder keeping the highest-priority
    /// status found among the things changed beneath it.
    pub fn rolled_up_to(&self, root: &FsPath) -> (r: StatusMap)
        requires
            self.wf(),
        ensures
            r.wf(),
            forall|k: Seq<Seq<char>>| #[trigger] status_lookup(r@, k) == rolled_up(self@, root@, self@.len() as int, k),
    {
        let ghost leaves = self@;
        let mut out = self.copy();
        let mut i: usize = 0;
        while i < self.entries.len()
            invariant
                leaves == self@,
                self.wf(),
                i <= self.entries@.len(),
                out.wf(),
                forall|k: Seq<Seq<char>>| #[trigger] status_lookup(out@, k) == rolled_up(leaves, root@, i as int, k),
            decreases self.entries.len() - i,
        {
            let status = self.entries[i].1;
            let ghost p = leaves[i as int].0;
            assert(p == self.entries@[i as int].0@);
            assert(status == leaves[i as int].1);
            let mut cur_opt = self.entries[i].0.parent();
            let ghost mut visited: Seq<Seq<Seq<char>>> = Seq::empty();
            proof {
                lemma_chain_lengths(p, root@);
            }
            while cur_opt.is_some()
                invariant
                    out.wf(),
                    ancestors(p, root@) == visited + rest_of(cur_opt, root@),
                    forall|j: int| 0 <= j < ancestors(p, root@).len() ==> (#[trigger] ancestors(p, root@)[j]).len()
                        == p.len() - 1 - j,
                    forall|k: Seq<Seq<char>>| #[trigger] status_lookup(out@, k) == (if visited.contains(k) {
                        Some(raised(rolled_up(leaves, root@, i as int, k), status))
                    } else {
                        rolled_up(leaves, root@, i as int, k)
                    }),
                decreases measure_of(cur_opt),
            {
                let cur = cur_opt.unwrap();
                let ghost anc = ancestors(p, root@);
                proof {
                    lemma_chain_lengths(cur@, root@);
                    assert(rest_of(Some(cur), root@)[0] == cur@);
                    assert(anc[visited.len() as int] == cur@);
                    assert(!visited.contains(cur@)) by {
                        if visited.contains(cur@) {
                            let j = choose|j: int| 0 <= j < visited.len() && visited[j] == cur@;
                            assert(anc[j] == visited[j]);
                        }
                    }
                }
                let prev = out.get(&cur);
                let next = match prev {
                    None => status,
                    Some(c) => if status_priority(status) > status_priority(c) {
                        status
                    } else {
                        c
                    },
                };
                let at_root = cur.same(root);
                let up = if at_root {
                    None
                } else {
                    cur.parent()
                };
                let ghost cv = cur@;
                out.insert(cur, next);
                proof {
                    let old_visited = visited;
                    visited = visited.push(cv);
                    if at_root {
                        assert(rest_of(Some(cur), root@) =~= seq![cv]);
                    } else {
                        assert(rest_of(Some(cur), root@) =~= seq![cv] + rest_of(up, root@));
                    }
                    assert(ancestors(p, root@) =~= visited + rest_of(up, root@));
                    assert forall|k: Seq<Seq<char>>| #[trigger] status_lookup(out@, k) == (if visited.contains(k) {
                        Some(raised(rolled_up(leaves, root@, i as int, k), status))
                    } else {
                        rolled_up(leaves, root@, i as int, k)
                    }) by {
                        if k == cv {
                            assert(visited[visited.len() - 1] == cv);
                        } else {
                            if visited.contains(k) {
                                let j = choose|j: int| 0 <= j < visited.len() && visited[j] == k;
                                assert(old_visited[j] == k);
                            }
                            if old_visited.contains(k) {
                                let j = choose|j: int| 0 <= j < old_visited.len() && old_visited[j] == k;
                                assert(visited[j] == k);
                            }
                        }
                    }
                }
                cur_opt = up;
            }
            proof {
                assert(visited =~= ancestors(p, root@));
                assert forall|k: Seq<Seq<char>>| #[trigger] status_lookup(out@, k) == rolled_up(leaves, root@, i + 1, k) by {
                }
            }
            i = i + 1;
        }
        out
    }
}

/// What is left of the walk up from the folder `c`, if any.
pub open spec fn rest_of(c: Option<FsPath>, root: Seq<Seq<char>>) -> Seq<Seq<Seq<char>>> {
    match c {
        Some(f) => chain_from(f@, root),
        None => Seq::empty(),
    }
}

/// How far the walk up from `c` can still go.
pub open spec fn measure_of(c: Option<FsPath>) -> int {
    match c {
        Some(f) => f@.len() as int + 1,
        None => 0,
    }
}

proof fn lemma_chain_lengths(p: Seq<Seq<char>>, root: Seq<Seq<char>>)
    ensures
        forall|j: int| 0 <= j < ancestors(p, root).len() ==> (#[trigger] ancestors(p, root)[j]).len() == p.len() - 1 - j,
        forall|j: int| 0 <= j < chain_from(p, root).len() ==> (#[trigger] chain_from(p, root)[j]).len() == p.len() - j,
    decreases p.len(),
{
    if p.len() > 0 && p.last() != root_part() {
        let q = p.drop_last();
        lemma_chain_lengths(q, root);
        if q != root {
            assert forall|j: int| 0 <= j < chain_from(q, root).len() implies (#[trigger] chain_from(q, root)[j]).len()
                == q.len() - j by {
                if j > 0 {
                    assert(chain_from(q, root)[j] == ancestors(q, root)[j - 1]);
                }
            }
        }
    }
    if p != root {
        assert forall|j: int| 0 <= j < chain_from(p, root).len() implies (#[trigger] chain_from(p, root)[j]).len()
            == p.len() - j by {
            if j > 0 {
                assert(chain_from(p, root)[j] == ancestors(p, root)[j - 1]);
            }
        }
    }
}

proof fn lemma_rolled_up_monotone(leaves: Seq<StatusEntry>, root: Seq<Seq<char>>, i: int, i2: int, k: Seq<Seq<char>>)
    requires
        0 <= i <= i2 <= leaves.len(),
        rolled_up(leaves, root, i, k) is Some,
    ensures
        rolled_up(leaves, root, i2, k) is Some,
        priority(rolled_up(leaves, root, i2, k)->0) >= priority(rolled_up(leaves, root, i, k)->0),
    decreases i2 - i,
{
    if i2 > i {
        lemma_rolled_up_monotone(leaves, root, i, i2 - 1, k);
    }
}

/// Once statuses are rolled up, every changed path keeps at least its own
/// status and every folder above it holds a status at least as
/// high-priority: a folder shows the most important change beneath it.
pub proof fn lemma_rolled_up_dominates(leaves: Seq<StatusEntry>, root: Seq<Seq<char>>, j: int, k: Seq<Seq<char>>)
    requires
        distinct_paths(leaves),
        0 <= j < leaves.len(),
        k == leaves[j].0 || ancestors(leaves[j].0, root).contains(k),
    ensures
        rolled_up(leaves, root, leaves.len() as int, k) is Some,
        priority(rolled_up(leaves, root, leaves.len() as int, k)->0) >= priority(leaves[j].1),
{
    if ancestors(leaves[j].0, root).contains(k) {
        assert(rolled_up(leaves, root, j + 1, k) == Some(raised(rolled_up(leaves, root, j, k), leaves[j].1)));
        lemma_rolled_up_monotone(leaves, root, j + 1, leaves.len() as int, k);
    } else {
        lemma_lookup_distinct(leaves, k);
        assert(rolled_up(leaves, root, 0, k) == Some(leaves[j].1));
        lemma_rolled_up_monotone(leaves, root, 0, leaves.len() as int, k);
    }
}

/// A path only gets a status from a change at it or beneath it: its rolled
/// up status is its own recorded one or that of something whose folders
/// include it.
pub proof fn lemma_rolled_up_from_changes(leaves: Seq<StatusEntry>, root: Seq<Seq<char>>, i: int, k: Seq<Seq<char>>)
    requires
        0 <= i <= leaves.len(),
        rolled_up(leaves, root, i, k) is Some,
    ensures
        status_lookup(leaves, k) == rolled_up(leaves, root, i, k) || exists|j: int|
            0 <= j < i && ancestors((#[trigger] leaves[j]).0, root).contains(k) && leaves[j].1 == rolled_up(
                leaves,
                root,
                i,
                k,
            )->0,
    decreases i,
{
    if i > 0 {
        let prev = rolled_up(leaves, root, i - 1, k);
        if ancestors(leaves[i - 1].0, root).contains(k) {
            if prev is Some && raised(prev, leaves[i - 1].1) == prev->0 {
                lemma_rolled_up_from_changes(leaves, root, i - 1, k);
            }
        } else {
            lemma_rolled_up_from_changes(leaves, root, i - 1, k);
        }
    }
}

/// Where a component sorts among components (`Component`'s order): the
/// root, then `.`, then `..`, then names.
pub open spec fn part_rank(c: Seq<char>) -> int {
    if c == root_part() {
        0
    } else if c == seq!['.'] {
        1
    } else if c == seq!['.', '.'] {
        2
    } else {
        3
    }
}

/// Component order: by rank, names by their characters.
pub open spec fn part_lt(a: Seq<char>, b: Seq<char>) -> bool {
    part_rank(a) < part_rank(b) || (part_rank(a) == 3 && part_rank(b) == 3 && chars_lt(a, b))
}

/// `Path` order: component by component, a path before its extensions.
pub open spec fn path_lt(p: Seq<Seq<char>>, q: Seq<Seq<char>>) -> bool
    decreases p.len(),
{
    if p.len() == 0 {
        q.len() > 0
    } else if q.len() == 0 {
        false
    } else if p[0] != q[0] {
        part_lt(p[0], q[0])
    } else {
        path_lt(p.drop_first(), q.drop_first())
    }
}

proof fn lemma_part_lt_order(a: Seq<char>, b: Seq<char>, c: Seq<char>)
    ensures
        !part_lt(a, a),
        part_lt(a, b) && part_lt(b, c) ==> part_lt(a, c),
        a != b ==> part_lt(a, b) || part_lt(b, a),
{
    lemma_chars_lt_irreflexive(a);
    if part_lt(a, b) && part_lt(b, c) && part_rank(a) == 3 && part_rank(c) == 3 {
        lemma_chars_lt_transitive(a, b, c);
    }
    if a != b {
        lemma_chars_lt_total(a, b);
        if part_rank(a) == part_rank(b) && part_rank(a) < 3 {
            assert(a == b);
        }
    }
}

proof fn lemma_path_lt_order(p: Seq<Seq<char>>, q: Seq<Seq<char>>, r: Seq<Seq<char>>)
    ensures
        !path_lt(p, p),
        path_lt(p, q) && path_lt(q, r) ==> path_lt(p, r),
        p != q ==> path_lt(p, q) || path_lt(q, p),
    decreases p.len(),
{
    if p.len() > 0 {
        lemma_part_lt_order(p[0], p[0], p[0]);
        lemma_path_lt_order(p.drop_first(), p.drop_first(), p.drop_first());
        if q.len() > 0 && r.len() > 0 {
            lemma_part_lt_order(p[0], q[0], r[0]);
            lemma_part_lt_order(q[0], p[0], r[0]);
            lemma_path_lt_order(p.drop_first(), q.drop_first(), r.drop_first());
            if p[0] == q[0] && p.drop_first() == q.drop_first() {
                assert(p =~= seq![p[0]] + p.drop_first());
                assert(q =~= seq![q[0]] + q.drop_first());
            }
        } else if q.len() > 0 {
            lemma_part_lt_order(p[0], q[0], q[0]);
            lemma_path_lt_order(p.drop_first(), q.drop_first(), q.drop_first());
            if p[0] == q[0] && p.drop_first() == q.drop_first() {
                assert(p =~= seq![p[0]] + p.drop_first());
                assert(q =~= seq![q[0]] + q.drop_first());
            }
        }
    } else if q.len() == 0 {
        assert(p =~= q);
    }
}

/// Compares two paths (`Path::cmp` answering `Less`).
pub fn path_less(p: &FsPath, q: &FsPath) -> (r: bool)
    ensures
        r == path_lt(p@, q@),
{
    let mut i: usize = 0;
    let ghost pv = p@;
    let ghost qv = q@;
    assert(pv.skip(0) =~= pv);
    assert(qv.skip(0) =~= qv);
    while i < p.parts.len() && i < q.parts.len() && same_str(p.parts[i].as_str(), q.parts[i].as_str())
        invariant
            pv == p@,
            qv == q@,
            i <= p.parts@.len(),
            i <= q.parts@.len(),
            path_lt(pv, qv) == path_lt(pv.skip(i as int), qv.skip(i as int)),
        decreases p.parts.len() - i,
    {
        assert(pv.skip(i as int)[0] == p.parts@[i as int]@);
        assert(qv.skip(i as int)[0] == q.parts@[i as int]@);
        assert(pv.skip(i as int).drop_first() =~= pv.skip(i + 1));
        assert(qv.skip(i as int).drop_first() =~= qv.skip(i + 1));
        i = i + 1;
    }
    if i == p.parts.len() {
        return i < q.parts.len();
    }
    if i == q.parts.len() {
        return false;
    }
    let a = p.parts[i].as_str();
    let b = q.parts[i].as_str();
    assert(pv.skip(i as int)[0] == a@);
    assert(qv.skip(i as int)[0] == b@);
    let ra = component_rank(a);
    let rb = component_rank(b);
    if ra != rb {
        return ra < rb;
    }
    if ra < 3 {
        return false;
    }
    let ac = chars_of(a);
    let bc = chars_of(b);
    chars_less(&ac, &bc)
}

/// `part_rank` of a component.
fn component_rank(c: &str) -> (r: u8)
    ensures
        r as int == part_rank(c@),
{
    proof {
        reveal_strlit("/");
        reveal_strlit(".");
        reveal_strlit("..");
        assert("/"@ =~= root_part());
        assert("."@ =~= seq!['.']);
        assert(".."@ =~= seq!['.', '.']);
    }
    if same_str(c, "/") {
        0
    } else if same_str(c, ".") {
        1
    } else if same_str(c, "..") {
        2
    } else {
        3
    }
}

/// Strictly ascending by path.
pub open spec fn status_entries_sorted(s: Seq<StatusEntry>) -> bool {
    forall|i: int, j: int| 0 <= i < j < s.len() ==> path_lt((#[trigger] s[i]).0, (#[trigger] s[j]).0)
}

impl StatusMap {
    /// The entries in path order (`Path`'s `Ord`), as the commit dialog
    /// lists them.
    pub fn sorted_entries(&self) -> (r: Vec<(FsPath, GitFileStatus)>)
        requires
            self.wf(),
        ensures
            status_entries_sorted(r@.map_values(|e: (FsPath, GitFileStatus)| (e.0@, e.1))),
            r@.map_values(|e: (FsPath, GitFileStatus)| (e.0@, e.1)).to_multiset() == self@.to_multiset(),
    {
        let mut out: Vec<(FsPath, GitFileStatus)> = Vec::new();
        let mut i: usize = 0;
        assert(self@.take(0) =~= Seq::<StatusEntry>::empty());
        assert(out@.map_values(|e: (FsPath, GitFileStatus)| (e.0@, e.1)) =~= Seq::<StatusEntry>::empty());
        while i < self.entries.len()
            invariant
                self.wf(),
                i <= self.entries@.len(),
                status_entries_sorted(out@.map_values(|e: (FsPath, GitFileStatus)| (e.0@, e.1))),
                out@.map_values(|e: (FsPath, GitFileStatus)| (e.0@, e.1)).to_multiset() == self@.take(i as int).to_multiset(),
                forall|k: int| 0 <= k < out@.len() ==> exists|m: int| 0 <= m < i && (#[trigger] out@[k]).0@ == (
                #[trigger] self@[m]).0,
            decreases self.entries.len() - i,
        {
            let ghost ov = out@.map_values(|e: (FsPath, GitFileStatus)| (e.0@, e.1));
            let x = &self.entries[i];
            let ghost xv = self@[i as int];
            assert(xv == (x.0@, x.1));
            let mut k: usize = 0;
            while k < out.len() && path_less(&out[k].0, &x.0)
                invariant
                    k <= out@.len(),
                    ov == out@.map_values(|e: (FsPath, GitFileStatus)| (e.0@, e.1)),
                    xv.0 == x.0@,
                    forall|m: int| 0 <= m < k ==> path_lt((#[trigger] ov[m]).0, xv.0),
                decreases out.len() - k,
            {
                assert(ov[k as int].0 == out@[k as int].0@);
                k = k + 1;
            }
            proof {
                assert forall|m: int| 0 <= m < ov.len() implies (#[trigger] ov[m]).0 != xv.0 by {
                    let m2 = choose|m2: int| 0 <= m2 < i && out@[m].0@ == self@[m2].0;
                    assert(self@[m2].0 != self@[i as int].0);
                }
                if k < ov.len() {
                    lemma_path_lt_order(ov[k as int].0, xv.0, xv.0);
                }
            }
            let ghost out_before = out@;
            out.insert(k, (x.0.duplicate(), x.1));
            proof {
                let nv = out@.map_values(|e: (FsPath, GitFileStatus)| (e.0@, e.1));
                assert(nv =~= ov.insert(k as int, xv));
                assert(self@.take(i + 1) =~= self@.take(i as int).push(xv));
                vstd::seq_lib::to_multiset_insert(ov, k as int, xv);
                vstd::seq_lib::to_multiset_build(self@.take(i as int), xv);
                assert forall|a: int, b: int| 0 <= a < b < nv.len() implies path_lt((#[trigger] nv[a]).0, (#[trigger] nv[b]).0) by {
                    if b < k {
                        assert(nv[a] == ov[a] && nv[b] == ov[b]);
                    } else if a > k {
                        assert(nv[a] == ov[a - 1] && nv[b] == ov[b - 1]);
                    } else if a == k {
                        assert(nv[b] == ov[b - 1]);
                        lemma_path_lt_order(xv.0, ov[k as int].0, ov[b - 1].0);
                        if b - 1 > k {
                            assert(path_lt(ov[k as int].0, ov[b - 1].0));
                        }
                    } else if b == k {
                        assert(nv[a] == ov[a]);
                    } else {
                        assert(nv[a] == ov[a] && nv[b] == ov[b - 1]);
                        if a < b - 1 {
                            assert(path_lt(ov[a].0, ov[b - 1].0));
                        }
                    }
                }
                assert forall|q: int| 0 <= q < out@.len() implies exists|m: int| 0 <= m < i + 1 && (#[trigger] out@[q]).0@
                    == (#[trigger] self@[m]).0 by {
                    if q < k {
                        assert(out@[q] == out_before[q]);
                        let m = choose|m: int| 0 <= m < i && out_before[q].0@ == self@[m].0;
                        assert(out@[q].0@ == self@[m].0);
                    } else if q > k {
                        assert(out@[q] == out_before[q - 1]);
                        let m = choose|m: int| 0 <= m < i && out_before[q - 1].0@ == self@[m].0;
                        assert(out@[q].0@ == self@[m].0);
                    } else {
                        assert(out@[q].0@ == self@[i as int].0);
                    }
                }
            }
            i = i + 1;
        }
        assert(self@.take(i as int) =~= self@);
        out
    }
}

} // verus!
