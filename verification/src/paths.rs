//! Filesystem paths as sequences of components, the way `std::path::Path`
//! compares and walks them: `/a/b` is `["/", "a", "b"]`, equality and
//! `starts_with` go component by component, `parent` drops the last
//! component. Only names and structure are modelled here; the caller does
//! the actual filesystem work.
use vstd::prelude::*;
use crate::strings::same_str;

verus! {

/// A path as its list of components (a leading `"/"` for the root).
pub struct FsPath {
    pub parts: Vec<String>,
}

impl View for FsPath {
    type V = Seq<Seq<char>>;

    open spec fn view(&self) -> Seq<Seq<char>> {
        self.parts@.map_values(|p: String| p@)
    }
}

/// The root component.
pub open spec fn root_part() -> Seq<char> {
    seq!['/']
}

/// A component that names a file or folder (not the root, `.` or `..`).
pub open spec fn normal_part(c: Seq<char>) -> bool {
    c != root_part() && c != seq!['.'] && c != seq!['.', '.']
}

/// Whether `base` is a component-wise prefix of `p` (`Path::starts_with`).
pub open spec fn is_prefix_of(base: Seq<Seq<char>>, p: Seq<Seq<char>>) -> bool {
    base.len() <= p.len() && p.take(base.len() as int) == base
}

/// `p` with its leading `old` replaced by `new`.
pub open spec fn rebased(p: Seq<Seq<char>>, old: Seq<Seq<char>>, new: Seq<Seq<char>>) -> Seq<Seq<char>> {
    new + p.skip(old.len() as int)
}

/// `Path::join` with a single file name: `.` adds nothing to a non-empty
/// path (it is not kept as a component), anything else is appended.
pub open spec fn joined(p: Seq<Seq<char>>, name: Seq<char>) -> Seq<Seq<char>> {
    if name == seq!['.'] && p.len() > 0 {
        p
    } else {
        p.push(name)
    }
}

/// `Path::parent`: the path without its last component, unless the path is
/// empty or ends at the root.
pub open spec fn parent_of(p: Seq<Seq<char>>) -> Option<Seq<Seq<char>>> {
    if p.len() > 0 && p.last() != root_part() {
        Some(p.drop_last())
    } else {
        None
    }
}

/// `Path::file_name`: the last component when it names a file or folder.
pub open spec fn file_name_of(p: Seq<Seq<char>>) -> Option<Seq<char>> {
    if p.len() > 0 && normal_part(p.last()) {
        Some(p.last())
    } else {
        None
    }
}

/// A name that can be joined onto a path as one component: non-empty and
/// free of separators.
pub open spec fn single_component(name: Seq<char>) -> bool {
    name.len() > 0 && !name.contains('/')
}

/// Whether two component lists are equal.
pub fn same_parts(a: &Vec<String>, b: &Vec<String>) -> (r: bool)
    ensures
        r == (a@.map_values(|p: String| p@) == b@.map_values(|p: String| p@)),
{
    let ghost av = a@.map_values(|p: String| p@);
    let ghost bv = b@.map_values(|p: String| p@);
    if a.len() != b.len() {
        assert(av.len() != bv.len());
        return false;
    }
    let mut i: usize = 0;
    while i < a.len()
        invariant
            a@.len() == b@.len(),
            av == a@.map_values(|p: String| p@),
            bv == b@.map_values(|p: String| p@),
            i <= a@.len(),
            forall|k: int| 0 <= k < i ==> av[k] == bv[k],
        decreases a.len() - i,
    {
        if !same_str(a[i].as_str(), b[i].as_str()) {
            assert(av[i as int] != bv[i as int]);
            return false;
        }
        i = i + 1;
    }
    assert(av =~= bv);
    true
}

/// Clones a list of components.
fn copy_parts(parts: &Vec<String>, upto: usize) -> (r: Vec<String>)
    requires
        upto <= parts@.len(),
    ensures
        r@.map_values(|p: String| p@) == parts@.map_values(|p: String| p@).take(upto as int),
{
    let mut out: Vec<String> = Vec::new();
    let mut i: usize = 0;
    while i < upto
        invariant
            upto <= parts@.len(),
            i <= upto,
            out@.len() == i,
            forall|k: int| 0 <= k < i ==> (#[trigger] out@[k])@ == parts@[k]@,
        decreases upto - i,
    {
        out.push(parts[i].clone());
        i = i + 1;
    }
    assert(out@.map_values(|p: String| p@) =~= parts@.map_values(|p: String| p@).take(upto as int));
    out
}

impl FsPath {
    /// The path with these components.
    pub fn new(parts: Vec<String>) -> (r: FsPath)
        ensures
            r.parts@ == parts@,
            r@ == parts@.map_values(|p: String| p@),
    {
        FsPath { parts }
    }

    /// A copy of this path.
    pub fn duplicate(&self) -> (r: FsPath)
        ensures
            r@ == self@,
    {
        let parts = copy_parts(&self.parts, self.parts.len());
        assert(self@.take(self@.len() as int) =~= self@);
        FsPath { parts }
    }

    /// Whether both paths have the same components (`Path` equality).
    pub fn same(&self, other: &FsPath) -> (r: bool)
        ensures
            r == (self@ == other@),
    {
        same_parts(&self.parts, &other.parts)
    }

    /// `Path::starts_with`: whether `base` is a component-wise prefix.
    pub fn starts_with(&self, base: &FsPath) -> (r: bool)
        ensures
            r == is_prefix_of(base@, self@),
    {
        if base.parts.len() > self.parts.len() {
            return false;
        }
        let ghost sv = self@;
        let ghost bv = base@;
        let mut i: usize = 0;
        while i < base.parts.len()
            invariant
                base.parts@.len() <= self.parts@.len(),
                sv == self@,
                bv == base@,
                i <= base.parts@.len(),
                forall|k: int| 0 <= k < i ==> sv[k] == bv[k],
            decreases base.parts.len() - i,
        {
            if !same_str(self.parts[i].as_str(), base.parts[i].as_str()) {
                assert(sv.take(bv.len() as int)[i as int] != bv[i as int]);
                return false;
            }
            i = i + 1;
        }
        assert(sv.take(bv.len() as int) =~= bv);
        true
    }

    /// `Path::join` with a single file or folder name.
    pub fn join(&self, name: &str) -> (r: FsPath)
        requires
            single_component(name@),
        ensures
            r@ == joined(self@, name@),
    {
        let mut parts = copy_parts(&self.parts, self.parts.len());
        assert(self@.take(self@.len() as int) =~= self@);
        assert(parts@.map_values(|p: String| p@) == self@);
        let dot = same_str(name, ".");
        proof {
            reveal_strlit(".");
            assert("."@ =~= seq!['.']);
        }
        if dot && self.parts.len() > 0 {
            let r = FsPath { parts };
            assert(r@ == self@);
            assert(name@ == seq!['.']);
            return r;
        }
        let ghost before = parts@;
        parts.push(name.to_owned());
        assert(parts@.map_values(|p: String| p@) =~= before.map_values(|p: String| p@).push(name@));
        FsPath { parts }
    }

    /// `Path::parent`.
    pub fn parent(&self) -> (r: Option<FsPath>)
        ensures
            match r {
                Some(q) => parent_of(self@) == Some(q@),
                None => parent_of(self@) is None,
            },
    {
        let n = self.parts.len();
        if n == 0 {
            return None;
        }
        let last_is_root = same_str(self.parts[n - 1].as_str(), "/");
        proof {
            reveal_strlit("/");
            assert("/"@ =~= root_part());
            assert(self@.last() == self.parts@[n - 1]@);
        }
        if last_is_root {
            return None;
        }
        let parts = copy_parts(&self.parts, n - 1);
        assert(self@.take(n - 1) =~= self@.drop_last());
        Some(FsPath { parts })
    }

    /// `Path::file_name`.
    pub fn file_name(&self) -> (r: Option<String>)
        ensures
            match r {
                Some(s) => file_name_of(self@) == Some(s@),
                None => file_name_of(self@) is None,
            },
    {
        let n = self.parts.len();
        if n == 0 {
            return None;
        }
        let last = &self.parts[n - 1];
        let special = same_str(last.as_str(), "/") || same_str(last.as_str(), ".") || same_str(last.as_str(), "..");
        proof {
            reveal_strlit("/");
            reveal_strlit(".");
            reveal_strlit("..");
            assert("/"@ =~= root_part());
            assert("."@ =~= seq!['.']);
            assert(".."@ =~= seq!['.', '.']);
            assert(self@.last() == last@);
        }
        if special {
            None
        } else {
            Some(last.clone())
        }
    }

    /// The path with its leading `old` replaced by `new`, or `None` when it
    /// does not start with `old` — how open paths follow a rename or move
    /// of `old` to `new` (`strip_prefix` followed by `join`).
    pub fn rebase(&self, old: &FsPath, new: &FsPath) -> (r: Option<FsPath>)
        ensures
            match r {
                Some(q) => is_prefix_of(old@, self@) && q@ == rebased(self@, old@, new@),
                None => !is_prefix_of(old@, self@),
            },
    {
        if !self.starts_with(old) {
            return None;
        }
        let mut parts = copy_parts(&new.parts, new.parts.len());
        assert(new@.take(new@.len() as int) =~= new@);
        let mut i: usize = old.parts.len();
        let ghost start = parts@.map_values(|p: String| p@);
        while i < self.parts.len()
            invariant
                old.parts@.len() <= i <= self.parts@.len(),
                start == new@,
                parts@.map_values(|p: String| p@) == start + self@.subrange(old.parts@.len() as int, i as int),
            decreases self.parts.len() - i,
        {
            let ghost before = parts@;
            parts.push(self.parts[i].clone());
            assert(self@.subrange(old.parts@.len() as int, i + 1) =~= self@.subrange(
                old.parts@.len() as int,
                i as int,
            ).push(self@[i as int]));
            assert(parts@.map_values(|p: String| p@) =~= before.map_values(|p: String| p@).push(self.parts@[i as int]@));
            i = i + 1;
        }
        assert(self@.subrange(old.parts@.len() as int, self@.len() as int) =~= self@.skip(old@.len() as int));
        Some(FsPath { parts })
    }
}

/// Components joined with `/`.
pub open spec fn joined_with_slash(parts: Seq<Seq<char>>) -> Seq<char>
    decreases parts.len(),
{
    if parts.len() == 0 {
        Seq::empty()
    } else if parts.len() == 1 {
        parts[0]
    } else {
        joined_with_slash(parts.drop_last()) + seq!['/'] + parts.last()
    }
}

/// How a path prints (`Path::display`): its components separated by `/`,
/// with the root written as a single leading `/`.
pub open spec fn display_of(p: Seq<Seq<char>>) -> Seq<char> {
    if p.len() > 0 && p[0] == root_part() {
        seq!['/'] + joined_with_slash(p.drop_first())
    } else {
        joined_with_slash(p)
    }
}

impl FsPath {
    /// The path as text (`Path::display`).
    pub fn display(&self) -> (r: String)
        ensures
            r@ == display_of(self@),
    {
        let n = self.parts.len();
        let mut start: usize = 0;
        let mut out = String::new();
        if n > 0 && same_str(self.parts[0].as_str(), "/") {
            proof {
                reveal_strlit("/");
                assert("/"@ =~= root_part());
            }
            crate::strings::push_char(&mut out, '/');
            start = 1;
        } else {
            proof {
                reveal_strlit("/");
                assert("/"@ =~= root_part());
                assert(n > 0 ==> self@[0] == self.parts@[0]@);
            }
        }
        let ghost prefix = out@;
        let ghost rest = self@.skip(start as int);
        assert(rest =~= (if start == 1 { self@.drop_first() } else { self@ }));
        let mut i = start;
        while i < n
            invariant
                start <= i <= n == self.parts@.len(),
                start <= 1,
                rest == self@.skip(start as int),
                out@ == prefix + joined_with_slash(rest.take(i - start)),
            decreases n - i,
        {
            let ghost before = rest.take(i - start);
            if i > start {
                crate::strings::push_char(&mut out, '/');
            }
            crate::strings::append_str(&mut out, self.parts[i].as_str());
            proof {
                let after = rest.take(i - start + 1);
                assert(after.drop_last() =~= before);
                assert(after.last() == self.parts@[i as int]@);
                if i == start {
                    assert(joined_with_slash(before) =~= Seq::<char>::empty());
                    assert(after.len() == 1);
                }
            }
            i = i + 1;
            assert(out@ =~= prefix + joined_with_slash(rest.take(i - start)));
        }
        assert(rest.take(n - start) =~= rest);
        out
    }
}

/// A path follows a rename of `old` to `new` and back: when it was not
/// under `new` to begin with, rebasing it from `old` to `new` and then from
/// `new` to `old` gives it back unchanged.
pub proof fn lemma_rebase_round_trip(p: Seq<Seq<char>>, old: Seq<Seq<char>>, new: Seq<Seq<char>>)
    requires
        is_prefix_of(old, p),
    ensures
        is_prefix_of(new, rebased(p, old, new)),
        rebased(rebased(p, old, new), new, old) == p,
{
    let q = rebased(p, old, new);
    assert(q.take(new.len() as int) =~= new);
    assert(q.skip(new.len() as int) =~= p.skip(old.len() as int));
    assert(old + p.skip(old.len() as int) =~= p);
}

/// The open paths after `old` was renamed to `new`: each path under `old`
/// moves under `new`, the others stay.
pub open spec fn renamed_paths(paths: Seq<Seq<Seq<char>>>, old: Seq<Seq<char>>, new: Seq<Seq<char>>) -> Seq<
    Seq<Seq<char>>,
> {
    paths.map_values(|p: Seq<Seq<char>>| if is_prefix_of(old, p) { rebased(p, old, new) } else { p })
}

/// The indices of the paths under `base`, in increasing order.
pub open spec fn indices_under(paths: Seq<Seq<Seq<char>>>, base: Seq<Seq<char>>, n: int) -> Seq<usize>
    decreases n,
{
    if n <= 0 {
        Seq::empty()
    } else if is_prefix_of(base, paths[n - 1]) {
        indices_under(paths, base, n - 1).push((n - 1) as usize)
    } else {
        indices_under(paths, base, n - 1)
    }
}

/// The views of a list of paths.
pub open spec fn paths_view(paths: Seq<FsPath>) -> Seq<Seq<Seq<char>>> {
    paths.map_values(|p: FsPath| p@)
}

/// Follows a rename or move of `from` to `to` in a list of open paths and
/// returns the indices that changed, in increasing order.
pub fn rename_open_paths(paths: &mut Vec<FsPath>, from: &FsPath, to: &FsPath) -> (changed: Vec<usize>)
    ensures
        paths_view(final(paths)@) == renamed_paths(paths_view(old(paths)@), from@, to@),
        changed@ == indices_under(paths_view(old(paths)@), from@, old(paths)@.len() as int),
{
    let ghost orig = paths_view(paths@);
    let mut changed: Vec<usize> = Vec::new();
    let mut i: usize = 0;
    while i < paths.len()
        invariant
            paths@.len() == orig.len(),
            i <= paths@.len(),
            forall|k: int| 0 <= k < i ==> (#[trigger] paths@[k])@ == renamed_paths(orig, from@, to@)[k],
            forall|k: int| i <= k < paths@.len() ==> (#[trigger] paths@[k])@ == orig[k],
            changed@ == indices_under(orig, from@, i as int),
        decreases paths.len() - i,
    {
        match paths[i].rebase(from, to) {
            Some(q) => {
                paths.set(i, q);
                changed.push(i);
            }
            None => {}
        }
        i = i + 1;
    }
    assert(paths_view(paths@) =~= renamed_paths(orig, from@, to@));
    changed
}

/// The indices of the open paths equal to or under `base`, in increasing
/// order (what a delete of `base` closes).
pub fn paths_under(paths: &Vec<FsPath>, base: &FsPath) -> (r: Vec<usize>)
    ensures
        r@ == indices_under(paths_view(paths@), base@, paths@.len() as int),
{
    let ghost pv = paths_view(paths@);
    let mut r: Vec<usize> = Vec::new();
    let mut i: usize = 0;
    while i < paths.len()
        invariant
            pv == paths_view(paths@),
            i <= paths@.len(),
            r@ == indices_under(pv, base@, i as int),
        decreases paths.len() - i,
    {
        if paths[i].starts_with(base) {
            r.push(i);
        }
        i = i + 1;
    }
    r
}

/// The index of the first path equal to `target`, if any.
pub fn position_of(paths: &Vec<FsPath>, target: &FsPath) -> (r: Option<usize>)
    ensures
        match r {
            Some(i) => i < paths@.len() && paths@[i as int]@ == target@ && forall|k: int|
                0 <= k < i ==> (#[trigger] paths@[k])@ != target@,
            None => forall|k: int| 0 <= k < paths@.len() ==> (#[trigger] paths@[k])@ != target@,
        },
{
    let mut i: usize = 0;
    while i < paths.len()
        invariant
            i <= paths@.len(),
            forall|k: int| 0 <= k < i ==> (#[trigger] paths@[k])@ != target@,
        decreases paths.len() - i,
    {
        if paths[i].same(target) {
            return Some(i);
        }
        i = i + 1;
    }
    None
}

/// Every index `indices_under` lists is in range, under `base`, and larger
/// than the ones before it; every path under `base` is listed.
pub proof fn lemma_indices_under(paths: Seq<Seq<Seq<char>>>, base: Seq<Seq<char>>, n: int)
    requires
        0 <= n <= paths.len(),
        paths.len() <= usize::MAX,
    ensures
        forall|j: int| 0 <= j < indices_under(paths, base, n).len() ==> (#[trigger] indices_under(paths, base, n)[j]) < n,
        forall|j: int| 0 <= j < indices_under(paths, base, n).len() ==> is_prefix_of(
            base,
            paths[(#[trigger] indices_under(paths, base, n)[j]) as int],
        ),
        forall|j1: int, j2: int| 0 <= j1 < j2 < indices_under(paths, base, n).len() ==>
            #[trigger] indices_under(paths, base, n)[j1] < #[trigger] indices_under(paths, base, n)[j2],
        forall|k: int| 0 <= k < n && is_prefix_of(base, #[trigger] paths[k]) ==> indices_under(paths, base, n).contains(
            k as usize,
        ),
    decreases n,
{
    if n > 0 {
        lemma_indices_under(paths, base, n - 1);
        let prev = indices_under(paths, base, n - 1);
        let cur = indices_under(paths, base, n);
        if is_prefix_of(base, paths[n - 1]) {
            assert(cur == prev.push((n - 1) as usize));
            assert forall|j: int| 0 <= j < cur.len() implies #[trigger] cur[j] < n && is_prefix_of(
                base,
                paths[cur[j] as int],
            ) by {
                if j < prev.len() {
                    assert(cur[j] == prev[j]);
                }
            }
            assert forall|j1: int, j2: int| 0 <= j1 < j2 < cur.len() implies #[trigger] cur[j1] < #[trigger] cur[j2] by {
                assert(cur[j1] == prev[j1]);
                if j2 < prev.len() {
                    assert(cur[j2] == prev[j2]);
                }
            }
            assert forall|k: int| 0 <= k < n && is_prefix_of(base, #[trigger] paths[k]) implies cur.contains(
                k as usize,
            ) by {
                if k < n - 1 {
                    assert(prev.contains(k as usize));
                    let j = choose|j: int| 0 <= j < prev.len() && prev[j] == k as usize;
                    assert(cur[j] == k as usize);
                } else {
                    assert(cur[prev.len() as int] == k as usize);
                }
            }
        } else {
            assert(cur == prev);
            assert forall|k: int| 0 <= k < n && is_prefix_of(base, #[trigger] paths[k]) implies cur.contains(
                k as usize,
            ) by {
                assert(k < n - 1);
                assert(prev.contains(k as usize));
            }
        }
    }
}

} // verus!
