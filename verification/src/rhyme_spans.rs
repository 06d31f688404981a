//! Consolidating detected rhyme spans: a span whose syllable ranges on
//! both sides lie inside those of a span kept before it adds nothing and
//! is dropped. The spans arrive already ordered (by their starts, best
//! score first among equal starts — a float ordering done by the caller).
use vstd::prelude::*;

verus! {

/// A rhyme span as its two syllable ranges: `(a_start, a_end, b_start,
/// b_end)`, ends exclusive.
pub type SpanRanges = (usize, usize, usize, usize);

/// Whether `k`'s ranges contain `s`'s on both sides.
pub open spec fn covers(k: SpanRanges, s: SpanRanges) -> bool {
    k.0 <= s.0 && s.1 <= k.1 && k.2 <= s.2 && s.3 <= k.3
}

/// Whether some span of `spans` at one of `kept` covers `s`.
pub open spec fn covered_by_kept(spans: Seq<SpanRanges>, kept: Seq<usize>, s: SpanRanges) -> bool {
    exists|j: int| 0 <= j < kept.len() && covers(spans[#[trigger] kept[j] as int], s)
}

/// The indices of the spans among the first `n` that survive: each span in
/// turn is kept unless a span kept before it covers it.
pub open spec fn kept_indices(spans: Seq<SpanRanges>, n: int) -> Seq<usize>
    decreases n,
{
    if n <= 0 {
        Seq::empty()
    } else {
        let k = kept_indices(spans, n - 1);
        if covered_by_kept(spans, k, spans[n - 1]) {
            k
        } else {
            k.push((n - 1) as usize)
        }
    }
}

/// The indices of the spans to keep, in order: a span is dropped when a
/// span kept before it covers it on both sides.
pub fn unsubsumed_spans(spans: &Vec<SpanRanges>) -> (r: Vec<usize>)
    ensures
        r@ == kept_indices(spans@, spans@.len() as int),
{
    let mut kept: Vec<usize> = Vec::new();
    let mut i: usize = 0;
    while i < spans.len()
        invariant
            i <= spans@.len(),
            kept@ == kept_indices(spans@, i as int),
            forall|j: int| 0 <= j < kept@.len() ==> (#[trigger] kept@[j]) < i,
        decreases spans.len() - i,
    {
        let s = spans[i];
        let mut j: usize = 0;
        let mut covered = false;
        while j < kept.len() && !covered
            invariant
                j <= kept@.len(),
                i < spans@.len(),
                s == spans@[i as int],
                forall|m: int| 0 <= m < kept@.len() ==> (#[trigger] kept@[m]) < i,
                covered ==> covered_by_kept(spans@, kept@, s),
                !covered ==> forall|m: int| 0 <= m < j ==> !covers(spans@[#[trigger] kept@[m] as int], s),
            decreases (kept.len() - j) as int + (if covered {
                0int
            } else {
                1int
            }),
        {
            let k = spans[kept[j]];
            if k.0 <= s.0 && s.1 <= k.1 && k.2 <= s.2 && s.3 <= k.3 {
                assert(covers(spans@[kept@[j as int] as int], s));
                covered = true;
            } else {
                j = j + 1;
            }
        }
        if !covered {
            assert(!covered_by_kept(spans@, kept@, s));
            kept.push(i);
        }
        i = i + 1;
    }
    kept
}

/// After consolidation every span is covered by a kept span (a kept span
/// covers itself), kept indices ascend, and no kept span covers a span
/// kept after it.
pub proof fn lemma_kept_cover(spans: Seq<SpanRanges>, n: int)
    requires
        0 <= n <= spans.len(),
        spans.len() <= usize::MAX,
    ensures
        forall|i: int| 0 <= i < n ==> covered_by_kept(spans, kept_indices(spans, n), #[trigger] spans[i]),
        forall|a: int, b: int| 0 <= a < b < kept_indices(spans, n).len() ==> #[trigger] kept_indices(spans, n)[a]
            < #[trigger] kept_indices(spans, n)[b],
        forall|j: int| 0 <= j < kept_indices(spans, n).len() ==> (#[trigger] kept_indices(spans, n)[j]) < n,
        forall|a: int, b: int| 0 <= a < b < kept_indices(spans, n).len() ==> !covers(
            spans[#[trigger] kept_indices(spans, n)[a] as int],
            spans[#[trigger] kept_indices(spans, n)[b] as int],
        ),
    decreases n,
{
    if n > 0 {
        lemma_kept_cover(spans, n - 1);
        let k = kept_indices(spans, n - 1);
        let kn = kept_indices(spans, n);
        if covered_by_kept(spans, k, spans[n - 1]) {
            assert(kn == k);
        } else {
            assert(kn == k.push((n - 1) as usize));
            assert forall|i: int| 0 <= i < n implies covered_by_kept(spans, kn, #[trigger] spans[i]) by {
                if i < n - 1 {
                    let j = choose|j: int| 0 <= j < k.len() && covers(spans[#[trigger] k[j] as int], spans[i]);
                    assert(kn[j] == k[j]);
                } else {
                    assert(kn[k.len() as int] == (n - 1) as usize);
                    assert(covers(spans[kn[k.len() as int] as int], spans[i]));
                }
            }
            assert forall|a: int, b: int| 0 <= a < b < kn.len() implies !covers(
                spans[#[trigger] kn[a] as int],
                spans[#[trigger] kn[b] as int],
            ) by {
                if b == k.len() {
                    assert(kn[a] == k[a]);
                    assert(kn[b] == (n - 1) as usize);
                } else {
                    assert(kn[a] == k[a] && kn[b] == k[b]);
                }
            }
            assert forall|a: int, b: int| 0 <= a < b < kn.len() implies #[trigger] kn[a] < #[trigger] kn[b] by {
                assert(kn[a] == k[a]);
                if b < k.len() {
                    assert(kn[b] == k[b]);
                }
            }
        }
    }
}

} // verus!
