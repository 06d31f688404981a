//! Importing notes into a new project. On macOS the notes come from an
//! AppleScript run by the caller, which prints each note as
//! `title|||body:::END:::`; this module turns that output into
//! `(title, body)` pairs. Elsewhere the import is refused with a clear
//! message.
use vstd::prelude::*;
use crate::strings::{chars_of, string_of, trim};
use crate::text_stats::{find_from, lemma_find_from, occurs_at};

verus! {

/// Apple Notes has no equivalent to shell out to outside macOS, so the
/// "Import Apple Notes" option fails there with this message rather than
/// silently doing nothing.
pub fn fetch_apple_notes() -> (r: Result<Vec<(String, String)>, String>)
    ensures
        r matches Err(e) && e@ == "Apple Notes import is only available on macOS"@,
{
    Err("Apple Notes import is only available on macOS".to_owned())
}

/// `str::split` with a non-empty separator: the pieces between successive
/// (non-overlapping, leftmost) occurrences of `sep`.
pub open spec fn split_pieces(s: Seq<char>, sep: Seq<char>) -> Seq<Seq<char>>
    decreases s.len(),
{
    if sep.len() == 0 {
        seq![s]
    } else {
        match find_from(s, sep, 0) {
            None => seq![s],
            Some(i) => {
                proof {
                    lemma_find_from(s, sep, 0);
                }
                seq![s.take(i)] + split_pieces(s.skip(i + sep.len()), sep)
            },
        }
    }
}

/// `str::split_once`: the parts before and after the first occurrence of
/// `sep`.
pub open spec fn split_once(s: Seq<char>, sep: Seq<char>) -> Option<(Seq<char>, Seq<char>)> {
    match find_from(s, sep, 0) {
        None => None,
        Some(i) => Some((s.take(i), s.skip(i + sep.len()))),
    }
}

/// A note title fit to be a file name: trimmed, with `/` replaced by `_`.
pub open spec fn clean_title(t: Seq<char>) -> Seq<char> {
    trim(t).map_values(|c: char| if c == '/' { '_' } else { c })
}

/// The note one piece of the script output describes, if any: pieces
/// without a `|||` separator or with an empty title are skipped.
pub open spec fn parsed_note(piece: Seq<char>) -> Option<(Seq<char>, Seq<char>)> {
    match split_once(piece, "|||"@) {
        None => None,
        Some((t, b)) => if clean_title(t).len() == 0 {
            None
        } else {
            Some((clean_title(t), trim(b)))
        },
    }
}

/// The notes described by a run of pieces, in order.
pub open spec fn notes_of(pieces: Seq<Seq<char>>) -> Seq<(Seq<char>, Seq<char>)>
    decreases pieces.len(),
{
    if pieces.len() == 0 {
        Seq::empty()
    } else {
        notes_of(pieces.drop_last()) + match parsed_note(pieces.last()) {
            Some(n) => seq![n],
            None => Seq::empty(),
        }
    }
}

/// The notes in the script's output.
pub open spec fn parsed_notes(raw: Seq<char>) -> Seq<(Seq<char>, Seq<char>)> {
    notes_of(split_pieces(raw, ":::END:::"@))
}

/// The first occurrence of `pat` in `h` at or after `from`.
fn find_chars(h: &Vec<char>, pat: &Vec<char>, from: usize) -> (r: Option<usize>)
    requires
        from <= h@.len(),
    ensures
        r == (match find_from(h@, pat@, from as int) {
            Some(i) => Some(i as usize),
            None => None::<usize>,
        }),
{
    let n = h.len();
    let m = pat.len();
    let mut k = from;
    while k <= n && m <= n - k
        invariant
            from <= k,
            n == h@.len(),
            m == pat@.len(),
            find_from(h@, pat@, from as int) == find_from(h@, pat@, k as int),
        decreases n + 1 - k,
    {
        if occurs_at(h.as_slice(), pat.as_slice(), k) {
            return Some(k);
        }
        assert(m > 0) by {
            if m == 0 {
                assert(h@.subrange(k as int, k as int) =~= pat@);
            }
        }
        k = k + 1;
    }
    None
}

/// `s` trimmed, with `/` replaced by `_`.
fn clean_title_chars(t: &[char]) -> (r: Vec<char>)
    ensures
        r@ == clean_title(t@),
{
    let tt = crate::strings::trim_chars(t);
    let mut out: Vec<char> = Vec::new();
    let mut i: usize = 0;
    while i < tt.len()
        invariant
            i <= tt@.len(),
            out@ =~= tt@.take(i as int).map_values(|c: char| if c == '/' { '_' } else { c }),
        decreases tt.len() - i,
    {
        let c = tt[i];
        out.push(if c == '/' { '_' } else { c });
        i = i + 1;
        assert(out@ =~= tt@.take(i as int).map_values(|c: char| if c == '/' { '_' } else { c }));
    }
    assert(tt@.take(tt@.len() as int) =~= tt@);
    out
}

/// The note in the characters of `raw` from `from` up to `to`, if any.
fn note_in(raw: &Vec<char>, sep: &Vec<char>, from: usize, to: usize) -> (r: Option<(String, String)>)
    requires
        from <= to <= raw@.len(),
        sep@ == "|||"@,
    ensures
        match r {
            Some(n) => parsed_note(raw@.subrange(from as int, to as int)) == Some((n.0@, n.1@)),
            None => parsed_note(raw@.subrange(from as int, to as int)) is None,
        },
{
    let piece = vstd::slice::slice_to_vec(vstd::slice::slice_subrange(raw.as_slice(), from, to));
    assert(piece@ =~= raw@.subrange(from as int, to as int));
    match find_chars(&piece, sep, 0) {
        None => None,
        Some(i) => {
            proof {
                lemma_find_from(piece@, sep@, 0);
            }
            let t = vstd::slice::slice_subrange(piece.as_slice(), 0, i);
            let title = clean_title_chars(t);
            assert(t@ =~= piece@.take(i as int));
            if title.len() == 0 {
                return None;
            }
            let b = vstd::slice::slice_subrange(piece.as_slice(), i + sep.len(), piece.len());
            assert(b@ =~= piece@.skip(i + sep@.len()));
            let body = crate::strings::trim_chars(b);
            Some((string_of(title.as_slice()), string_of(body.as_slice())))
        },
    }
}

/// The `(title, body)` notes printed by the notes-export script: each
/// `:::END:::`-terminated record split at its first `|||`, the title
/// trimmed with `/` made `_`, the body trimmed; records without `|||` or
/// with an empty title are skipped.
pub fn parse_notes_output(raw: &str) -> (r: Vec<(String, String)>)
    ensures
        r@.map_values(|n: (String, String)| (n.0@, n.1@)) == parsed_notes(raw@),
{
    let cs = chars_of(raw);
    let end_sep = chars_of(":::END:::");
    let field_sep = chars_of("|||");
    proof {
        reveal_strlit(":::END:::");
    }
    let n = cs.len();
    let mut out: Vec<(String, String)> = Vec::new();
    let mut pos: usize = 0;
    let mut done = false;
    assert(cs@.skip(0) =~= cs@);
    while !done
        invariant
            n == cs@.len(),
            cs@ == raw@,
            end_sep@ == ":::END:::"@,
            end_sep@.len() == 9,
            field_sep@ == "|||"@,
            pos <= n,
            !done ==> out@.map_values(|m: (String, String)| (m.0@, m.1@)) + notes_of(split_pieces(cs@.skip(pos as int), end_sep@))
                == parsed_notes(raw@),
            done ==> out@.map_values(|m: (String, String)| (m.0@, m.1@)) == parsed_notes(raw@),
        decreases (n - pos) as int + (if done {
            0int
        } else {
            1int
        }),
    {
        let ghost rest = cs@.skip(pos as int);
        let ghost before = out@.map_values(|m: (String, String)| (m.0@, m.1@));
        let found = find_chars(&cs, &end_sep, pos);
        let end = match found {
            Some(e) => e,
            None => n,
        };
        proof {
            lemma_find_from(cs@, end_sep@, pos as int);
            lemma_find_from_shift(cs@, end_sep@, pos as int);
        }
        let note = note_in(&cs, &field_sep, pos, end);
        match note {
            Some(m) => {
                out.push(m);
            },
            None => {},
        }
        proof {
            let piece = cs@.subrange(pos as int, end as int);
            let extra = match parsed_note(piece) {
                Some(x) => seq![x],
                None => Seq::<(Seq<char>, Seq<char>)>::empty(),
            };
            assert(out@.map_values(|m: (String, String)| (m.0@, m.1@)) =~= before + extra);
            if found is Some {
                assert(rest.take(end - pos) =~= piece);
                assert(rest.skip(end - pos + 9) =~= cs@.skip(end + 9));
                lemma_notes_of_cons(piece, split_pieces(cs@.skip(end + 9), end_sep@));
                assert(before + (extra + notes_of(split_pieces(cs@.skip(end + 9), end_sep@))) =~= before + extra
                    + notes_of(split_pieces(cs@.skip(end + 9), end_sep@)));
            } else {
                assert(rest =~= piece);
                assert(split_pieces(rest, end_sep@) == seq![piece]);
                lemma_notes_of_cons(piece, Seq::empty());
                assert(notes_of(Seq::<Seq<char>>::empty()) =~= Seq::<(Seq<char>, Seq<char>)>::empty());
                assert(extra + Seq::<(Seq<char>, Seq<char>)>::empty() =~= extra);
            }
        }
        match found {
            Some(e) => {
                pos = e + 9;
            },
            None => {
                done = true;
            },
        }
    }
    out
}

proof fn lemma_find_from_shift(h: Seq<char>, pat: Seq<char>, k: int)
    requires
        0 <= k <= h.len(),
    ensures
        match find_from(h, pat, k) {
            Some(j) => find_from(h.skip(k), pat, 0) == Some(j - k),
            None => find_from(h.skip(k), pat, 0) is None,
        },
{
    lemma_find_from_shift_at(h, pat, k, k);
}

proof fn lemma_find_from_shift_at(h: Seq<char>, pat: Seq<char>, k: int, at: int)
    requires
        0 <= k <= at,
        k <= h.len(),
    ensures
        match find_from(h, pat, at) {
            Some(j) => find_from(h.skip(k), pat, at - k) == Some(j - k),
            None => find_from(h.skip(k), pat, at - k) is None,
        },
    decreases h.len() + 1 - at,
{
    let t = h.skip(k);
    if at + pat.len() <= h.len() {
        assert(t.subrange(at - k, at - k + pat.len()) =~= h.subrange(at, at + pat.len()));
        if h.subrange(at, at + pat.len()) != pat {
            lemma_find_from_shift_at(h, pat, k, at + 1);
        }
    }
}

proof fn lemma_notes_of_cons(p: Seq<char>, ps: Seq<Seq<char>>)
    ensures
        notes_of(seq![p] + ps) == (match parsed_note(p) {
            Some(n) => seq![n],
            None => Seq::<(Seq<char>, Seq<char>)>::empty(),
        }) + notes_of(ps),
    decreases ps.len(),
{
    let m = match parsed_note(p) {
        Some(n) => seq![n],
        None => Seq::<(Seq<char>, Seq<char>)>::empty(),
    };
    if ps.len() == 0 {
        assert((seq![p] + ps).drop_last() =~= Seq::<Seq<char>>::empty());
        assert((seq![p] + ps).last() == p);
        assert(notes_of(Seq::<Seq<char>>::empty()) =~= Seq::<(Seq<char>, Seq<char>)>::empty());
        assert(notes_of(ps) =~= Seq::<(Seq<char>, Seq<char>)>::empty());
        assert(notes_of(seq![p] + ps) =~= m);
        assert(m + notes_of(ps) =~= m);
    } else {
        lemma_notes_of_cons(p, ps.drop_last());
        assert((seq![p] + ps).drop_last() =~= seq![p] + ps.drop_last());
        assert((seq![p] + ps).last() == ps.last());
        let tail = match parsed_note(ps.last()) {
            Some(n) => seq![n],
            None => Seq::<(Seq<char>, Seq<char>)>::empty(),
        };
        assert(notes_of(seq![p] + ps) == notes_of(seq![p] + ps.drop_last()) + tail);
        assert(notes_of(ps) == notes_of(ps.drop_last()) + tail);
        assert(m + notes_of(ps.drop_last()) + tail =~= m + (notes_of(ps.drop_last()) + tail));
    }
}

} // verus!
