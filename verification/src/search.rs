//! The rhyme search panel's results: the answers of several word-service
//! queries merged into one word list (each word once, with its syllable
//! count), grouped by syllable count in ascending order, and the text of
//! each group's header and word list. The queries themselves are made by
//! the caller.
use vstd::prelude::*;
use crate::strings::{append_str, decimal, decimal_string};

verus! {

/// A reported word and its syllable count, if the service gave one.
pub type ReportView = (Seq<char>, Option<usize>);

/// A merged result: a word and its (non-zero) syllable count.
pub type RhymeView = (Seq<char>, usize);

/// The position of `w` in `rs`, or -1.
pub open spec fn word_index(rs: Seq<RhymeView>, w: Seq<char>) -> int
    decreases rs.len(),
{
    if rs.len() == 0 {
        -1
    } else if rs.last().0 == w {
        rs.len() - 1
    } else {
        word_index(rs.drop_last(), w)
    }
}

/// `rs` after one more report: words without a positive syllable count
/// are dropped; a word seen before takes the newer count in its old place;
/// a new word is added at the end.
pub open spec fn merged_with(rs: Seq<RhymeView>, report: ReportView) -> Seq<RhymeView> {
    let n: usize = match report.1 {
        Some(n) => n,
        None => 0,
    };
    if n == 0 {
        rs
    } else if word_index(rs, report.0) >= 0 {
        rs.update(word_index(rs, report.0), (report.0, n))
    } else {
        rs.push((report.0, n))
    }
}

/// All reports merged, in the order they came.
pub open spec fn merged(reports: Seq<ReportView>) -> Seq<RhymeView>
    decreases reports.len(),
{
    if reports.len() == 0 {
        Seq::empty()
    } else {
        merged_with(merged(reports.drop_last()), reports.last())
    }
}

/// The views of a list of reports.
pub open spec fn reports_view(rs: Seq<(String, Option<usize>)>) -> Seq<ReportView> {
    rs.map_values(|r: (String, Option<usize>)| (r.0@, r.1))
}

/// The views of a list of merged results.
pub open spec fn rhymes_view(rs: Seq<(String, usize)>) -> Seq<RhymeView> {
    rs.map_values(|r: (String, usize)| (r.0@, r.1))
}

proof fn lemma_word_index(rs: Seq<RhymeView>, w: Seq<char>)
    ensures
        -1 <= word_index(rs, w) < rs.len(),
        word_index(rs, w) >= 0 ==> rs[word_index(rs, w)].0 == w,
        word_index(rs, w) < 0 ==> forall|i: int| 0 <= i < rs.len() ==> (#[trigger] rs[i]).0 != w,
    decreases rs.len(),
{
    if rs.len() > 0 && rs.last().0 != w {
        lemma_word_index(rs.drop_last(), w);
        if word_index(rs, w) < 0 {
            assert forall|i: int| 0 <= i < rs.len() implies (#[trigger] rs[i]).0 != w by {
                if i < rs.len() - 1 {
                    assert(rs[i] == rs.drop_last()[i]);
                }
            }
        }
    }
}

/// The reports of several queries merged into one list: each word once,
/// with the syllable count of its latest report, in order of first
/// appearance; words reported without a positive count are left out.
pub fn merge_reports(reports: &Vec<(String, Option<usize>)>) -> (r: Vec<(String, usize)>)
    ensures
        rhymes_view(r@) == merged(reports_view(reports@)),
{
    let ghost rv = reports_view(reports@);
    let mut out: Vec<(String, usize)> = Vec::new();
    let mut i: usize = 0;
    while i < reports.len()
        invariant
            rv == reports_view(reports@),
            i <= reports@.len(),
            rhymes_view(out@) == merged(rv.take(i as int)),
        decreases reports.len() - i,
    {
        let ghost before = rhymes_view(out@);
        assert(rv.take(i + 1).drop_last() =~= rv.take(i as int));
        assert(rv.take(i + 1).last() == rv[i as int]);
        let n: usize = match reports[i].1 {
            Some(n) => n,
            None => 0,
        };
        if n > 0 {
            let w = &reports[i].0;
            let mut j: usize = 0;
            while j < out.len() && !crate::strings::same_str(out[j].0.as_str(), w.as_str())
                invariant
                    j <= out@.len(),
                    before == rhymes_view(out@),
                    forall|k: int| 0 <= k < j ==> (#[trigger] before[k]).0 != w@,
                decreases out.len() - j,
            {
                assert(before[j as int].0 == out@[j as int].0@);
                j = j + 1;
            }
            proof {
                lemma_word_index(before, w@);
                lemma_merged_distinct(rv.take(i as int));
            }
            if j < out.len() {
                assert(before[j as int].0 == w@);
                assert(word_index(before, w@) == j) by {
                    lemma_word_index_first(before, w@, j as int);
                }
                out.set(j, (w.clone(), n));
                assert(rhymes_view(out@) =~= before.update(j as int, (w@, n)));
            } else {
                out.push((w.clone(), n));
                assert(rhymes_view(out@) =~= before.push((w@, n)));
            }
        }
        i = i + 1;
    }
    assert(rv.take(i as int) =~= rv);
    out
}

/// In a merged list no word appears twice, so the first match is the
/// only one.
pub open spec fn distinct_words(rs: Seq<RhymeView>) -> bool {
    forall|i: int, j: int| 0 <= i < j < rs.len() ==> (#[trigger] rs[i]).0 != (#[trigger] rs[j]).0
}

proof fn lemma_word_index_first(rs: Seq<RhymeView>, w: Seq<char>, j: int)
    requires
        0 <= j < rs.len(),
        rs[j].0 == w,
        forall|k: int| 0 <= k < j ==> (#[trigger] rs[k]).0 != w,
        distinct_words(rs),
    ensures
        word_index(rs, w) == j,
{
    lemma_word_index(rs, w);
    if word_index(rs, w) != j {
        assert(word_index(rs, w) >= 0);
    }
}

/// Merging never lists a word twice.
pub proof fn lemma_merged_distinct(reports: Seq<ReportView>)
    ensures
        distinct_words(merged(reports)),
        forall|i: int| 0 <= i < merged(reports).len() ==> (#[trigger] merged(reports)[i]).1 > 0,
    decreases reports.len(),
{
    if reports.len() > 0 {
        lemma_merged_distinct(reports.drop_last());
        let prev = merged(reports.drop_last());
        lemma_word_index(prev, reports.last().0);
    }
}

/// The words of `rs` with `k` syllables, in order.
pub open spec fn words_with(rs: Seq<RhymeView>, k: usize) -> Seq<Seq<char>>
    decreases rs.len(),
{
    if rs.len() == 0 {
        Seq::empty()
    } else if rs.last().1 == k {
        words_with(rs.drop_last(), k).push(rs.last().0)
    } else {
        words_with(rs.drop_last(), k)
    }
}

/// `groups` lists the syllable counts of `rs` in ascending order, each
/// once, each with its words in their order in `rs`.
pub open spec fn groups_of(groups: Seq<(usize, Seq<Seq<char>>)>, rs: Seq<RhymeView>) -> bool {
    &&& forall|g: int, h: int| 0 <= g < h < groups.len() ==> (#[trigger] groups[g]).0 < (#[trigger] groups[h]).0
    &&& forall|g: int| 0 <= g < groups.len() ==> (#[trigger] groups[g]).1 == words_with(rs, groups[g].0)
        && groups[g].1.len() > 0
    &&& forall|i: int| 0 <= i < rs.len() ==> exists|g: int| 0 <= g < groups.len() && (#[trigger] groups[g]).0 == (
    #[trigger] rs[i]).1
}

/// The views of a list of groups.
pub open spec fn groups_view(gs: Seq<(usize, Vec<String>)>) -> Seq<(usize, Seq<Seq<char>>)> {
    gs.map_values(|g: (usize, Vec<String>)| (g.0, g.1@.map_values(|w: String| w@)))
}

proof fn lemma_words_with_absent(rs: Seq<RhymeView>, k: usize)
    requires
        forall|i: int| 0 <= i < rs.len() ==> (#[trigger] rs[i]).1 != k,
    ensures
        words_with(rs, k) == Seq::<Seq<char>>::empty(),
    decreases rs.len(),
{
    if rs.len() > 0 {
        assert forall|i: int| 0 <= i < rs.len() - 1 implies (#[trigger] rs.drop_last()[i]).1 != k by {
            assert(rs.drop_last()[i] == rs[i]);
        }
        lemma_words_with_absent(rs.drop_last(), k);
    }
}

/// The merged results grouped by syllable count, counts ascending, each
/// group's words in their order in `rhymes`.
pub fn group_by_syllables(rhymes: &Vec<(String, usize)>) -> (r: Vec<(usize, Vec<String>)>)
    ensures
        groups_of(groups_view(r@), rhymes_view(rhymes@)),
{
    let ghost rv = rhymes_view(rhymes@);
    let mut groups: Vec<(usize, Vec<String>)> = Vec::new();
    let mut i: usize = 0;
    while i < rhymes.len()
        invariant
            rv == rhymes_view(rhymes@),
            i <= rhymes@.len(),
            groups_of(groups_view(groups@), rv.take(i as int)),
        decreases rhymes.len() - i,
    {
        let ghost t0 = rv.take(i as int);
        let ghost t1 = rv.take(i + 1);
        let ghost gv = groups_view(groups@);
        assert(t1.drop_last() =~= t0);
        assert(t1.last() == rv[i as int]);
        let w = rhymes[i].0.clone();
        let n = rhymes[i].1;
        assert(rv[i as int] == (w@, n));
        let mut g: usize = 0;
        while g < groups.len() && groups[g].0 < n
            invariant
                g <= groups@.len(),
                gv == groups_view(groups@),
                forall|h: int| 0 <= h < g ==> (#[trigger] gv[h]).0 < n,
            decreases groups.len() - g,
        {
            g = g + 1;
        }
        if g < groups.len() && groups[g].0 == n {
            let ghost before = groups@;
            let mut members = groups[g].1.clone();
            assert forall|k: int| 0 <= k < members@.len() implies members@[k] == groups@[g as int].1@[k] by {
                assert(vstd::pervasive::cloned(groups@[g as int].1[k], members[k]));
            }
            assert(members@ =~= groups@[g as int].1@);
            assert(gv[g as int].1 == groups@[g as int].1@.map_values(|x: String| x@));
            let ghost mv = members@;
            members.push(w);
            assert(members@.map_values(|x: String| x@) =~= mv.map_values(|x: String| x@).push(w@));
            let count = groups[g].0;
            groups.set(g, (count, members));
            proof {
                let gv2 = groups_view(groups@);
                assert(gv2 =~= gv.update(g as int, (n, gv[g as int].1.push(w@))));
                assert forall|h: int| 0 <= h < gv2.len() implies (#[trigger] gv2[h]).1 == words_with(t1, gv2[h].0)
                    && gv2[h].1.len() > 0 by {
                    if h != g {
                        assert(gv2[h] == gv[h]);
                        assert(gv[h].0 != n);
                    }
                }
                assert forall|k: int| 0 <= k < t1.len() implies exists|h: int| 0 <= h < gv2.len() && (#[trigger] gv2[h]).0
                    == (#[trigger] t1[k]).1 by {
                    if k < t0.len() {
                        assert(t1[k] == t0[k]);
                        let h = choose|h: int| 0 <= h < gv.len() && (#[trigger] gv[h]).0 == (#[trigger] t0[k]).1;
                        assert(gv2[h].0 == gv[h].0);
                    } else {
                        assert(gv2[g as int].0 == n);
                    }
                }
            }
        } else {
            let ghost before = groups@;
            let mut members: Vec<String> = Vec::new();
            members.push(w);
            assert(members@.map_values(|x: String| x@) =~= seq![w@]);
            groups.insert(g, (n, members));
            proof {
                assert forall|k: int| 0 <= k < t0.len() implies (#[trigger] t0[k]).1 != n by {
                    let h = choose|h: int| 0 <= h < gv.len() && (#[trigger] gv[h]).0 == (#[trigger] t0[k]).1;
                    if h < g {
                        assert(gv[h].0 < n);
                    } else {
                        if g < gv.len() {
                            assert(gv[g as int].0 > n);
                            if h > g {
                                assert(gv[g as int].0 < gv[h].0);
                            }
                        }
                    }
                }
                lemma_words_with_absent(t0, n);
                let gv2 = groups_view(groups@);
                assert(gv2 =~= gv.insert(g as int, (n, seq![w@])));
                assert(words_with(t1, n) =~= seq![w@]);
                assert forall|a: int, b: int| 0 <= a < b < gv2.len() implies (#[trigger] gv2[a]).0 < (#[trigger] gv2[b]).0 by {
                    if a < g && b < g {
                        assert(gv2[a] == gv[a] && gv2[b] == gv[b]);
                    } else if a < g && b == g {
                        assert(gv2[a] == gv[a]);
                    } else if a < g {
                        assert(gv2[a] == gv[a] && gv2[b] == gv[b - 1]);
                    } else if a == g {
                        assert(gv2[b] == gv[b - 1]);
                        if b - 1 > g {
                            assert(gv[g as int].0 < gv[b - 1].0);
                        }
                    } else {
                        assert(gv2[a] == gv[a - 1] && gv2[b] == gv[b - 1]);
                    }
                }
                assert forall|h: int| 0 <= h < gv2.len() implies (#[trigger] gv2[h]).1 == words_with(t1, gv2[h].0)
                    && gv2[h].1.len() > 0 by {
                    if h < g {
                        assert(gv2[h] == gv[h]);
                    } else if h > g {
                        assert(gv2[h] == gv[h - 1]);
                    }
                }
                assert forall|k: int| 0 <= k < t1.len() implies exists|h: int| 0 <= h < gv2.len() && (#[trigger] gv2[h]).0
                    == (#[trigger] t1[k]).1 by {
                    if k < t0.len() {
                        assert(t1[k] == t0[k]);
                        let h = choose|h: int| 0 <= h < gv.len() && (#[trigger] gv[h]).0 == (#[trigger] t0[k]).1;
                        if h < g {
                            assert(gv2[h].0 == gv[h].0);
                        } else {
                            assert(gv2[h + 1].0 == gv[h].0);
                        }
                    } else {
                        assert(gv2[g as int].0 == n);
                    }
                }
            }
        }
        i = i + 1;
    }
    assert(rv.take(i as int) =~= rv);
    groups
}

/// The group header: `1 Syllable`, `2 Syllables`, ...
pub open spec fn header_text(n: nat) -> Seq<char> {
    decimal(n) + " Syllable"@ + if n == 1 {
        Seq::<char>::empty()
    } else {
        "s"@
    }
}

/// The bold header markup shown above a group.
pub fn syllable_header_markup(n: u64) -> (r: String)
    ensures
        r@ == "<span font_weight='bold' color='#e1e1e1'>"@ + header_text(n as nat) + "</span>"@,
{
    let mut r = "<span font_weight='bold' color='#e1e1e1'>".to_owned();
    let d = decimal_string(n);
    append_str(&mut r, d.as_str());
    append_str(&mut r, " Syllable");
    if n != 1 {
        append_str(&mut r, "s");
    } else {
        assert(r@ + Seq::<char>::empty() =~= r@);
    }
    append_str(&mut r, "</span>");
    r
}

/// Words joined with `", "`.
pub open spec fn comma_joined(ws: Seq<Seq<char>>) -> Seq<char>
    decreases ws.len(),
{
    if ws.len() == 0 {
        Seq::empty()
    } else if ws.len() == 1 {
        ws[0]
    } else {
        comma_joined(ws.drop_last()) + ", "@ + ws.last()
    }
}

/// The markup of a group's words: all of them, comma-separated.
pub fn words_markup(words: &Vec<String>) -> (r: String)
    ensures
        r@ == "<span color='#ffffff'>"@ + comma_joined(words@.map_values(|w: String| w@)) + "</span>"@,
{
    let ghost ws = words@.map_values(|w: String| w@);
    let mut joined = String::new();
    let mut i: usize = 0;
    while i < words.len()
        invariant
            ws == words@.map_values(|w: String| w@),
            i <= words@.len(),
            joined@ == comma_joined(ws.take(i as int)),
        decreases words.len() - i,
    {
        let ghost before = ws.take(i as int);
        if i > 0 {
            append_str(&mut joined, ", ");
        }
        append_str(&mut joined, words[i].as_str());
        proof {
            let after = ws.take(i + 1);
            assert(after.drop_last() =~= before);
            assert(after.last() == words@[i as int]@);
            if i == 0 {
                assert(joined@ =~= words@[0]@);
            }
        }
        i = i + 1;
    }
    assert(ws.take(i as int) =~= ws);
    let mut r = "<span color='#ffffff'>".to_owned();
    append_str(&mut r, joined.as_str());
    append_str(&mut r, "</span>");
    r
}

} // verus!
