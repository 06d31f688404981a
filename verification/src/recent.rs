//! The recently opened workspaces: most recent first, each folder at most
//! once, at most `MAX_RECENT` of them, stored one path per line. Reading
//! and writing the file, and dropping folders that no longer exist, is the
//! caller's part.
use vstd::prelude::*;
use crate::paths::{FsPath, display_of, file_name_of, paths_view};
use crate::strings::{append_str, chars_of};

verus! {

/// How many recent workspaces are kept.
pub const MAX_RECENT: usize = 10;

/// Whether a path differs from `root`.
pub open spec fn differs_from(root: Seq<Seq<char>>) -> spec_fn(Seq<Seq<char>>) -> bool {
    |p: Seq<Seq<char>>| p != root
}

/// `list` without any entry equal to `root`.
pub open spec fn without(list: Seq<Seq<Seq<char>>>, root: Seq<Seq<char>>) -> Seq<Seq<Seq<char>>> {
    list.filter(differs_from(root))
}

/// `list` after opening `root`: `root` moves to the front (or is added
/// there), and the list is cut to `MAX_RECENT` entries.
pub open spec fn recorded(list: Seq<Seq<Seq<char>>>, root: Seq<Seq<char>>) -> Seq<Seq<Seq<char>>> {
    let full = seq![root] + without(list, root);
    if full.len() > MAX_RECENT {
        full.take(MAX_RECENT as int)
    } else {
        full
    }
}

/// Lines joined with `\n`, with no newline after the last one.
pub open spec fn newline_joined(lines: Seq<Seq<char>>) -> Seq<char>
    decreases lines.len(),
{
    if lines.len() == 0 {
        Seq::empty()
    } else if lines.len() == 1 {
        lines[0]
    } else {
        newline_joined(lines.drop_last()) + seq!['\n'] + lines.last()
    }
}

/// The file text for a list of recent workspaces: one path per line.
pub open spec fn recent_text_of(list: Seq<Seq<Seq<char>>>) -> Seq<char> {
    newline_joined(list.map_values(|p: Seq<Seq<char>>| display_of(p)))
}

/// `list` without the entries equal to `root`, in order.
pub fn remove_recent(list: &Vec<FsPath>, root: &FsPath) -> (r: Vec<FsPath>)
    ensures
        paths_view(r@) == without(paths_view(list@), root@),
{
    let ghost lv = paths_view(list@);
    let mut out: Vec<FsPath> = Vec::new();
    let mut i: usize = 0;
    while i < list.len()
        invariant
            lv == paths_view(list@),
            i <= list@.len(),
            paths_view(out@) == without(lv.take(i as int), root@),
        decreases list.len() - i,
    {
        let ghost before = paths_view(out@);
        proof {
            assert(lv.take(i + 1) =~= lv.take(i as int).push(lv[i as int]));
            lv.take(i as int).lemma_filter_push(lv[i as int], differs_from(root@));
        }
        if !list[i].same(root) {
            out.push(list[i].duplicate());
            assert(paths_view(out@) =~= before.push(lv[i as int]));
        }
        i = i + 1;
    }
    assert(lv.take(i as int) =~= lv);
    out
}

/// `list` after opening the workspace `root`: `root` first, then the
/// other entries in their previous order, at most `MAX_RECENT` in all.
pub fn record_recent(list: &Vec<FsPath>, root: &FsPath) -> (r: Vec<FsPath>)
    ensures
        paths_view(r@) == recorded(paths_view(list@), root@),
{
    let rest = remove_recent(list, root);
    let mut out: Vec<FsPath> = Vec::new();
    out.push(root.duplicate());
    let ghost full = seq![root@] + paths_view(rest@);
    let mut i: usize = 0;
    while i < rest.len() && out.len() < MAX_RECENT
        invariant
            full == seq![root@] + paths_view(rest@),
            i <= rest@.len(),
            out@.len() == i + 1,
            out@.len() <= MAX_RECENT,
            paths_view(out@) == full.take(i + 1),
        decreases rest.len() - i,
    {
        let ghost before = paths_view(out@);
        out.push(rest[i].duplicate());
        assert(full.take(i + 2) =~= full.take(i + 1).push(full[i + 1]));
        assert(paths_view(out@) =~= before.push(rest@[i as int]@));
        i = i + 1;
    }
    if i == rest.len() {
        assert(full.take(full.len() as int) =~= full);
    }
    out
}

/// The recent-workspaces file text for `list`: one path per line, no
/// newline after the last.
pub fn recent_text(list: &Vec<FsPath>) -> (r: String)
    ensures
        r@ == recent_text_of(paths_view(list@)),
{
    let ghost lines = paths_view(list@).map_values(|p: Seq<Seq<char>>| display_of(p));
    let mut out = String::new();
    let mut i: usize = 0;
    while i < list.len()
        invariant
            lines == paths_view(list@).map_values(|p: Seq<Seq<char>>| display_of(p)),
            i <= list@.len(),
            out@ == newline_joined(lines.take(i as int)),
        decreases list.len() - i,
    {
        let ghost before = lines.take(i as int);
        if i > 0 {
            crate::strings::push_char(&mut out, '\n');
        }
        let d = list[i].display();
        append_str(&mut out, d.as_str());
        proof {
            let after = lines.take(i + 1);
            assert(after.drop_last() =~= before);
            assert(after.last() == d@);
            if i == 0 {
                assert(before =~= Seq::<Seq<char>>::empty());
                assert(out@ =~= d@);
            }
        }
        i = i + 1;
    }
    assert(lines.take(i as int) =~= lines);
    out
}

/// The name a recent workspace is listed under: its folder name, or
/// `"Workspace"` when the path has none.
pub fn recent_display_name(path: &FsPath) -> (r: String)
    ensures
        r@ == (match file_name_of(path@) {
            Some(n) => n,
            None => "Workspace"@,
        }),
{
    match path.file_name() {
        Some(n) => n,
        None => "Workspace".to_owned(),
    }
}

/// The letter on a recent workspace's avatar: the first character of its
/// name, or `'W'` for an empty name.
pub fn avatar_initial(name: &str) -> (r: char)
    ensures
        r == (if name@.len() > 0 {
            name@[0]
        } else {
            'W'
        }),
{
    let cs = chars_of(name);
    if cs.len() > 0 {
        cs[0]
    } else {
        'W'
    }
}

proof fn lemma_filter_keeps_all(s: Seq<Seq<Seq<char>>>, root: Seq<Seq<char>>)
    requires
        forall|i: int| 0 <= i < s.len() ==> #[trigger] s[i] != root,
    ensures
        without(s, root) == s,
    decreases s.len(),
{
    if s.len() > 0 {
        assert forall|i: int| 0 <= i < s.drop_last().len() implies #[trigger] s.drop_last()[i] != root by {
            assert(s.drop_last()[i] == s[i]);
        }
        lemma_filter_keeps_all(s.drop_last(), root);
        assert(s[s.len() - 1] != root);
        assert(differs_from(root)(s.last()));
        assert(s.drop_last().push(s.last()) =~= s);
        s.drop_last().lemma_filter_push(s.last(), differs_from(root));
    }
}

proof fn lemma_without_excludes(s: Seq<Seq<Seq<char>>>, root: Seq<Seq<char>>)
    ensures
        forall|i: int| 0 <= i < without(s, root).len() ==> #[trigger] without(s, root)[i] != root,
{
    assert forall|i: int| 0 <= i < without(s, root).len() implies #[trigger] without(s, root)[i] != root by {
        s.lemma_filter_pred(differs_from(root), i);
    }
}

/// Opening a workspace puts it first, keeps every other entry at most
/// once, and never lists more than `MAX_RECENT`.
pub proof fn lemma_recorded_shape(list: Seq<Seq<Seq<char>>>, root: Seq<Seq<char>>)
    ensures
        recorded(list, root).len() >= 1,
        recorded(list, root)[0] == root,
        recorded(list, root).len() <= MAX_RECENT,
        forall|i: int| 1 <= i < recorded(list, root).len() ==> #[trigger] recorded(list, root)[i] != root,
{
    lemma_without_excludes(list, root);
    let full = seq![root] + without(list, root);
    assert forall|i: int| 1 <= i < recorded(list, root).len() implies #[trigger] recorded(list, root)[i] != root by {
        assert(recorded(list, root)[i] == full[i]);
        assert(full[i] == without(list, root)[i - 1]);
    }
}

/// Opening the same workspace twice in a row leaves the list as the first
/// opening left it.
pub proof fn lemma_recorded_idempotent(list: Seq<Seq<Seq<char>>>, root: Seq<Seq<char>>)
    ensures
        recorded(recorded(list, root), root) == recorded(list, root),
{
    let once = recorded(list, root);
    lemma_recorded_shape(list, root);
    let tail = once.drop_first();
    assert forall|i: int| 0 <= i < tail.len() implies #[trigger] tail[i] != root by {
        assert(tail[i] == once[i + 1]);
    }
    lemma_filter_keeps_all(tail, root);
    assert(seq![root] + tail =~= once);
    tail.lemma_filter_prepend(root, differs_from(root));
    assert(without(once, root) =~= tail);
    assert(seq![root] + without(once, root) =~= once);
}

} // verus!
