//! Dictionary word completion: which words of a sorted word list complete
//! what has been typed, and which of them are offered. The dictionary is
//! loaded and the proposals shown by the caller.
use vstd::prelude::*;
use vstd::string::StringSliceAdditionalSpecFns;
use crate::strings::{
    chars_less, chars_lt, chars_of, is_alphanumeric, lemma_chars_lt_asymmetric, lemma_chars_lt_total,
    lemma_chars_lt_transitive, same_str, unicode_alphanumeric,
};

verus! {

/// Whether `w` begins with `p`.
pub open spec fn has_prefix(w: Seq<char>, p: Seq<char>) -> bool {
    p.len() <= w.len() && w.take(p.len() as int) == p
}

/// Sorted ascending (`str` order), duplicates allowed.
pub open spec fn words_sorted(ws: Seq<Seq<char>>) -> bool {
    forall|i: int, j: int| 0 <= i < j < ws.len() ==> !chars_lt(#[trigger] ws[j], #[trigger] ws[i])
}

/// The views of a list of words.
pub open spec fn words_view(ws: Seq<String>) -> Seq<Seq<char>> {
    ws.map_values(|w: String| w@)
}

/// Whether `w` completes `p`.
pub open spec fn completes(p: Seq<char>) -> spec_fn(Seq<char>) -> bool {
    |w: Seq<char>| has_prefix(w, p)
}

/// Whether `w` differs from what was typed.
pub open spec fn not_typed(p: Seq<char>) -> spec_fn(Seq<char>) -> bool {
    |w: Seq<char>| w != p
}

/// How many proposals are offered at most.
pub const MAX_PROPOSALS: usize = 100;

/// The proposals for `typed`: nothing until two bytes have been typed;
/// then the first `MAX_PROPOSALS` dictionary words that begin with it, in
/// dictionary order, leaving out the typed word itself.
pub open spec fn proposals(ws: Seq<Seq<char>>, typed: Seq<char>, typed_bytes: nat) -> Seq<Seq<char>> {
    if typed_bytes < 2 {
        Seq::empty()
    } else {
        let m = ws.filter(completes(typed));
        let first = if m.len() > MAX_PROPOSALS {
            m.take(MAX_PROPOSALS as int)
        } else {
            m
        };
        first.filter(not_typed(typed))
    }
}

proof fn lemma_prefix_not_below(w: Seq<char>, p: Seq<char>)
    requires
        has_prefix(w, p),
    ensures
        !chars_lt(w, p),
    decreases p.len(),
{
    if p.len() > 0 {
        assert(w[0] == w.take(p.len() as int)[0]);
        assert(w.drop_first().take(p.len() - 1) =~= p.drop_first()) by {
            assert forall|k: int| 0 <= k < p.len() - 1 implies w.drop_first().take(p.len() - 1)[k] == p.drop_first()[k] by {
                assert(w.take(p.len() as int)[k + 1] == p[k + 1]);
            }
        }
        lemma_prefix_not_below(w.drop_first(), p.drop_first());
    }
}

/// A word between `p` and a word beginning with `p` begins with `p` too.
proof fn lemma_between_prefix(p: Seq<char>, x: Seq<char>, y: Seq<char>)
    requires
        !chars_lt(x, p),
        !chars_lt(y, x),
        has_prefix(y, p),
    ensures
        has_prefix(x, p),
    decreases p.len(),
{
    if p.len() > 0 {
        assert(y[0] == y.take(p.len() as int)[0]);
        assert(x.len() > 0);
        assert(x[0] == p[0]);
        let (p1, x1, y1) = (p.drop_first(), x.drop_first(), y.drop_first());
        assert(y1.take(p1.len() as int) =~= p1) by {
            assert forall|k: int| 0 <= k < p1.len() implies y1.take(p1.len() as int)[k] == p1[k] by {
                assert(y.take(p.len() as int)[k + 1] == p[k + 1]);
            }
        }
        lemma_between_prefix(p1, x1, y1);
        assert(x.take(p.len() as int) =~= p) by {
            assert forall|k: int| 0 <= k < p.len() implies x.take(p.len() as int)[k] == p[k] by {
                if k > 0 {
                    assert(x1.take(p1.len() as int)[k - 1] == p1[k - 1]);
                }
            }
        }
    } else {
        assert(x.take(0) =~= p);
    }
}

/// Whether `w` begins with the characters `p`.
fn starts_with_chars(w: &Vec<char>, p: &Vec<char>) -> (r: bool)
    ensures
        r == has_prefix(w@, p@),
{
    if p.len() > w.len() {
        return false;
    }
    let mut i: usize = 0;
    while i < p.len()
        invariant
            p@.len() <= w@.len(),
            i <= p@.len(),
            forall|k: int| 0 <= k < i ==> w@[k] == p@[k],
        decreases p.len() - i,
    {
        if w[i] != p[i] {
            assert(w@.take(p@.len() as int)[i as int] != p@[i as int]);
            return false;
        }
        i = i + 1;
    }
    assert(w@.take(p@.len() as int) =~= p@);
    true
}

/// The words of a sorted list that begin with `prefix`, as the index range
/// `start..end` (two binary searches: `slice::partition_point`).
pub fn prefix_matches(words: &Vec<String>, prefix: &str) -> (r: (usize, usize))
    requires
        words_sorted(words_view(words@)),
    ensures
        r.0 <= r.1 <= words@.len(),
        forall|i: int| 0 <= i < words@.len() ==> (has_prefix(#[trigger] words@[i]@, prefix@) <==> r.0 <= i < r.1),
{
    let ghost ws = words_view(words@);
    let p = chars_of(prefix);
    let mut lo: usize = 0;
    let mut hi: usize = words.len();
    while lo < hi
        invariant
            ws == words_view(words@),
            words_sorted(ws),
            p@ == prefix@,
            lo <= hi <= words@.len(),
            forall|i: int| 0 <= i < lo ==> chars_lt(#[trigger] ws[i], p@),
            forall|i: int| hi <= i < words@.len() ==> !chars_lt(#[trigger] ws[i], p@),
        decreases hi - lo,
    {
        let mid = lo + (hi - lo) / 2;
        let w = chars_of(words[mid].as_str());
        assert(ws[mid as int] == w@);
        if chars_less(&w, &p) {
            proof {
                assert forall|i: int| 0 <= i <= mid implies chars_lt(#[trigger] ws[i], p@) by {
                    if i < mid {
                        lemma_chars_lt_total(ws[i], ws[mid as int]);
                        if chars_lt(ws[i], ws[mid as int]) {
                            lemma_chars_lt_transitive(ws[i], ws[mid as int], p@);
                        }
                    }
                }
            }
            lo = mid + 1;
        } else {
            proof {
                assert forall|i: int| mid <= i < words@.len() implies !chars_lt(#[trigger] ws[i], p@) by {
                    if i > mid && chars_lt(ws[i], p@) {
                        lemma_chars_lt_total(ws[i], ws[mid as int]);
                        if chars_lt(ws[i], ws[mid as int]) {
                            assert(!chars_lt(ws[i], ws[mid as int]));
                        } else if chars_lt(ws[mid as int], ws[i]) {
                            lemma_chars_lt_transitive(ws[mid as int], ws[i], p@);
                        }
                    }
                }
            }
            hi = mid;
        }
    }
    let start = lo;
    let mut hi2: usize = words.len();
    while lo < hi2
        invariant
            ws == words_view(words@),
            words_sorted(ws),
            p@ == prefix@,
            start <= lo <= hi2 <= words@.len(),
            forall|i: int| 0 <= i < start ==> chars_lt(#[trigger] ws[i], p@),
            forall|i: int| start <= i < words@.len() ==> !chars_lt(#[trigger] ws[i], p@),
            forall|i: int| start <= i < lo ==> has_prefix(#[trigger] ws[i], p@),
            forall|i: int| hi2 <= i < words@.len() ==> !has_prefix(#[trigger] ws[i], p@),
        decreases hi2 - lo,
    {
        let mid = lo + (hi2 - lo) / 2;
        let w = chars_of(words[mid].as_str());
        assert(ws[mid as int] == w@);
        if starts_with_chars(&w, &p) {
            proof {
                assert forall|i: int| start <= i <= mid implies has_prefix(#[trigger] ws[i], p@) by {
                    if i < mid {
                        lemma_between_prefix(p@, ws[i], ws[mid as int]);
                    }
                }
            }
            lo = mid + 1;
        } else {
            proof {
                assert forall|i: int| mid <= i < words@.len() implies !has_prefix(#[trigger] ws[i], p@) by {
                    if i > mid && has_prefix(ws[i], p@) {
                        lemma_between_prefix(p@, ws[mid as int], ws[i]);
                    }
                }
            }
            hi2 = mid;
        }
    }
    proof {
        assert forall|i: int| 0 <= i < words@.len() implies (has_prefix(#[trigger] words@[i]@, prefix@) <==> start <= i < lo) by {
            assert(ws[i] == words@[i]@);
            if i < start && has_prefix(ws[i], p@) {
                lemma_prefix_not_below(ws[i], p@);
            }
        }
    }
    (start, lo)
}

/// The words completing `p` are exactly the range `start..end`.
proof fn lemma_filter_is_range(ws: Seq<Seq<char>>, p: Seq<char>, start: int, end: int)
    requires
        0 <= start <= end <= ws.len(),
        forall|i: int| 0 <= i < ws.len() ==> (has_prefix(#[trigger] ws[i], p) <==> start <= i < end),
    ensures
        ws.filter(completes(p)) == ws.subrange(start, end),
    decreases ws.len(),
{
    if ws.len() > 0 {
        let t = ws.drop_last();
        let e2 = if end > t.len() {
            t.len() as int
        } else {
            end
        };
        let s2 = if start > e2 {
            e2
        } else {
            start
        };
        assert forall|i: int| 0 <= i < t.len() implies (has_prefix(#[trigger] t[i], p) <==> s2 <= i < e2) by {
            assert(t[i] == ws[i]);
        }
        lemma_filter_is_range(t, p, s2, e2);
        assert(ws == t.push(ws.last()));
        t.lemma_filter_push(ws.last(), completes(p));
        if has_prefix(ws.last(), p) {
            assert(ws.subrange(start, end) =~= t.subrange(s2, e2).push(ws.last()));
        } else {
            assert(ws.subrange(start, end) =~= t.subrange(s2, e2));
        }
    } else {
        assert(ws.subrange(start, end) =~= ws);
    }
}

/// The completion proposals for the typed (lowercased) `typed` from the
/// sorted dictionary `words`.
pub fn completion_proposals(words: &Vec<String>, typed: &str) -> (r: Vec<String>)
    requires
        words_sorted(words_view(words@)),
    ensures
        words_view(r@) == proposals(words_view(words@), typed@, typed.spec_bytes().len()),
{
    let ghost ws = words_view(words@);
    let mut out: Vec<String> = Vec::new();
    let typed_bytes = typed.as_bytes();
    if typed_bytes.len() < 2 {
        assert(words_view(out@) =~= Seq::<Seq<char>>::empty());
        return out;
    }
    let (start, end) = prefix_matches(words, typed);
    proof {
        assert forall|i: int| 0 <= i < ws.len() implies (has_prefix(#[trigger] ws[i], typed@) <==> start <= i < end) by {
            assert(ws[i] == words@[i]@);
        }
        lemma_filter_is_range(ws, typed@, start as int, end as int);
    }
    let ghost m = ws.filter(completes(typed@));
    let stop = if end - start > MAX_PROPOSALS {
        start + MAX_PROPOSALS
    } else {
        end
    };
    let ghost first = m.take((stop - start) as int);
    assert(first == (if m.len() > MAX_PROPOSALS {
        m.take(MAX_PROPOSALS as int)
    } else {
        m
    }));
    let mut i = start;
    while i < stop
        invariant
            ws == words_view(words@),
            start <= i <= stop <= end <= words@.len(),
            m == ws.subrange(start as int, end as int),
            first == m.take((stop - start) as int),
            words_view(out@) == first.take((i - start) as int).filter(not_typed(typed@)),
        decreases stop - i,
    {
        let ghost before = words_view(out@);
        proof {
            let k = (i - start) as int;
            assert(first.take(k + 1) =~= first.take(k).push(ws[i as int]));
            first.take(k).lemma_filter_push(ws[i as int], not_typed(typed@));
            assert(ws[i as int] == words@[i as int]@);
        }
        if !same_str(words[i].as_str(), typed) {
            out.push(words[i].clone());
            assert(words_view(out@) =~= before.push(ws[i as int]));
        }
        i = i + 1;
    }
    assert(first.take((stop - start) as int) =~= first);
    out
}

/// Whether typing `c` opens completion: any alphanumeric character.
pub fn is_trigger(c: char) -> (r: bool)
    ensures
        r == unicode_alphanumeric(c),
{
    is_alphanumeric(c)
}

/// Every proposal begins with what was typed, differs from it, and there
/// are never more than `MAX_PROPOSALS`.
pub proof fn lemma_proposals_complete_typed(ws: Seq<Seq<char>>, typed: Seq<char>, typed_bytes: nat)
    ensures
        proposals(ws, typed, typed_bytes).len() <= MAX_PROPOSALS,
        forall|i: int| 0 <= i < proposals(ws, typed, typed_bytes).len() ==> has_prefix(
            #[trigger] proposals(ws, typed, typed_bytes)[i],
            typed,
        ) && proposals(ws, typed, typed_bytes)[i] != typed,
{
    if typed_bytes >= 2 {
        let m = ws.filter(completes(typed));
        let first = if m.len() > MAX_PROPOSALS {
            m.take(MAX_PROPOSALS as int)
        } else {
            m
        };
        let r = first.filter(not_typed(typed));
        first.lemma_filter_len(not_typed(typed));
        assert forall|i: int| 0 <= i < r.len() implies has_prefix(#[trigger] r[i], typed) && r[i] != typed by {
            first.lemma_filter_pred(not_typed(typed), i);
            assert(r.contains(r[i]));
            first.lemma_filter_contains_rev(not_typed(typed), r[i]);
            assert(first.contains(r[i]));
            let j = choose|j: int| 0 <= j < first.len() && first[j] == r[i];
            assert(first[j] == m[j]);
            ws.lemma_filter_pred(completes(typed), j);
        }
    }
}

} // verus!
