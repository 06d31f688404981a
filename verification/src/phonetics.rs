//! Syllables as the rhyme scorer sees them: a vowel nucleus, its stress
//! and the coda consonants after it, built from a CMU-style pronunciation.
//! The log-odds scoring of syllable pairs works in floating point and lives
//! with the application; this module holds the phoneme model it reads and
//! the integer parts of rhyme detection.
use vstd::prelude::*;

verus! {

/// Stress marker on a vowel phoneme.
#[derive(Debug, Clone, Copy, PartialEq, Eq, Structural)]
pub enum Stress {
    Unstressed,
    Primary,
    Secondary,
}

/// A phoneme of the CMU pronouncing dictionary: 15 vowels carrying a stress
/// marker and 24 consonants.
#[derive(Debug, Clone, Copy, PartialEq, Eq, Structural)]
pub enum Symbol {
    AA(Stress),
    AE(Stress),
    AH(Stress),
    AO(Stress),
    AW(Stress),
    AY(Stress),
    B,
    CH,
    D,
    DH,
    EH(Stress),
    ER(Stress),
    EY(Stress),
    F,
    G,
    HH,
    IH(Stress),
    IY(Stress),
    JH,
    K,
    L,
    M,
    N,
    NG,
    OW(Stress),
    OY(Stress),
    P,
    R,
    S,
    SH,
    T,
    TH,
    UH(Stress),
    UW(Stress),
    V,
    W,
    Y,
    Z,
    ZH,
}

/// The 15 CMU vowel phonemes (stress stripped), in the row/column order of
/// the vowel scoring table: AA AE AH AO AW AY EH ER EY IH IY OW OY UH UW.
#[derive(Debug, Clone, Copy, PartialEq, Eq, Structural)]
pub enum Vowel {
    Aa,
    Ae,
    Ah,
    Ao,
    Aw,
    Ay,
    Eh,
    Er,
    Ey,
    Ih,
    Iy,
    Ow,
    Oy,
    Uh,
    Uw,
}

/// The 21 consonants that can appear in a coda (everything but the
/// glides/aspirate HH, W, Y, which never end an English syllable), in the
/// row/column order of the consonant scoring table.
#[derive(Debug, Clone, Copy, PartialEq, Eq, Structural)]
pub enum Consonant {
    B,
    Ch,
    D,
    Dh,
    F,
    G,
    Jh,
    K,
    L,
    M,
    N,
    Ng,
    P,
    R,
    S,
    Sh,
    T,
    Th,
    V,
    Z,
    Zh,
}

/// Metrical stress: 0 = none, 1 = primary, 2 = secondary (mirrors CMUdict's
/// stress digits).
pub type StressLevel = u8;

/// A syllable reduced to the features that matter for rhyme: nucleus,
/// stress, and coda. Onset consonants are never included.
#[derive(Debug, Clone)]
pub struct Syllable {
    pub vowel: Vowel,
    pub stress: StressLevel,
    pub coda: Vec<Consonant>,
}

/// The stress digit of a stress marker.
pub open spec fn stress_level(s: Stress) -> StressLevel {
    match s {
        Stress::Unstressed => 0,
        Stress::Primary => 1,
        Stress::Secondary => 2,
    }
}

pub fn stress_of(stress: &Stress) -> (r: StressLevel)
    ensures
        r == stress_level(*stress),
{
    match stress {
        Stress::Unstressed => 0,
        Stress::Primary => 1,
        Stress::Secondary => 2,
    }
}

/// Whether a phoneme is a vowel (a syllable nucleus).
pub open spec fn is_syllable(s: Symbol) -> bool {
    match s {
        Symbol::AA(_) => true,
        Symbol::AE(_) => true,
        Symbol::AH(_) => true,
        Symbol::AO(_) => true,
        Symbol::AW(_) => true,
        Symbol::AY(_) => true,
        Symbol::EH(_) => true,
        Symbol::ER(_) => true,
        Symbol::EY(_) => true,
        Symbol::IH(_) => true,
        Symbol::IY(_) => true,
        Symbol::OW(_) => true,
        Symbol::OY(_) => true,
        Symbol::UH(_) => true,
        Symbol::UW(_) => true,
        _ => false,
    }
}

/// The vowel of a vowel phoneme, with its stress level.
pub open spec fn vowel_of(s: Symbol) -> Option<(Vowel, StressLevel)> {
    match s {
        Symbol::AA(st) => Some((Vowel::Aa, stress_level(st))),
        Symbol::AE(st) => Some((Vowel::Ae, stress_level(st))),
        Symbol::AH(st) => Some((Vowel::Ah, stress_level(st))),
        Symbol::AO(st) => Some((Vowel::Ao, stress_level(st))),
        Symbol::AW(st) => Some((Vowel::Aw, stress_level(st))),
        Symbol::AY(st) => Some((Vowel::Ay, stress_level(st))),
        Symbol::EH(st) => Some((Vowel::Eh, stress_level(st))),
        Symbol::ER(st) => Some((Vowel::Er, stress_level(st))),
        Symbol::EY(st) => Some((Vowel::Ey, stress_level(st))),
        Symbol::IH(st) => Some((Vowel::Ih, stress_level(st))),
        Symbol::IY(st) => Some((Vowel::Iy, stress_level(st))),
        Symbol::OW(st) => Some((Vowel::Ow, stress_level(st))),
        Symbol::OY(st) => Some((Vowel::Oy, stress_level(st))),
        Symbol::UH(st) => Some((Vowel::Uh, stress_level(st))),
        Symbol::UW(st) => Some((Vowel::Uw, stress_level(st))),
        _ => None,
    }
}

/// The coda consonant a consonant phoneme stands for (`None` for vowels and
/// for HH, W, Y).
pub open spec fn consonant_of(s: Symbol) -> Option<Consonant> {
    match s {
        Symbol::B => Some(Consonant::B),
        Symbol::CH => Some(Consonant::Ch),
        Symbol::D => Some(Consonant::D),
        Symbol::DH => Some(Consonant::Dh),
        Symbol::F => Some(Consonant::F),
        Symbol::G => Some(Consonant::G),
        Symbol::JH => Some(Consonant::Jh),
        Symbol::K => Some(Consonant::K),
        Symbol::L => Some(Consonant::L),
        Symbol::M => Some(Consonant::M),
        Symbol::N => Some(Consonant::N),
        Symbol::NG => Some(Consonant::Ng),
        Symbol::P => Some(Consonant::P),
        Symbol::R => Some(Consonant::R),
        Symbol::S => Some(Consonant::S),
        Symbol::SH => Some(Consonant::Sh),
        Symbol::T => Some(Consonant::T),
        Symbol::TH => Some(Consonant::Th),
        Symbol::V => Some(Consonant::V),
        Symbol::Z => Some(Consonant::Z),
        Symbol::ZH => Some(Consonant::Zh),
        _ => None,
    }
}

/// The letters a phoneme is written with in the CMU dictionary, without
/// any stress digit.
pub open spec fn phoneme_letters(s: Symbol) -> Seq<char> {
    match s {
        Symbol::AA(_) => seq!['A', 'A'],
        Symbol::AE(_) => seq!['A', 'E'],
        Symbol::AH(_) => seq!['A', 'H'],
        Symbol::AO(_) => seq!['A', 'O'],
        Symbol::AW(_) => seq!['A', 'W'],
        Symbol::AY(_) => seq!['A', 'Y'],
        Symbol::EH(_) => seq!['E', 'H'],
        Symbol::ER(_) => seq!['E', 'R'],
        Symbol::EY(_) => seq!['E', 'Y'],
        Symbol::IH(_) => seq!['I', 'H'],
        Symbol::IY(_) => seq!['I', 'Y'],
        Symbol::OW(_) => seq!['O', 'W'],
        Symbol::OY(_) => seq!['O', 'Y'],
        Symbol::UH(_) => seq!['U', 'H'],
        Symbol::UW(_) => seq!['U', 'W'],
        Symbol::B => seq!['B'],
        Symbol::CH => seq!['C', 'H'],
        Symbol::D => seq!['D'],
        Symbol::DH => seq!['D', 'H'],
        Symbol::F => seq!['F'],
        Symbol::G => seq!['G'],
        Symbol::HH => seq!['H', 'H'],
        Symbol::JH => seq!['J', 'H'],
        Symbol::K => seq!['K'],
        Symbol::L => seq!['L'],
        Symbol::M => seq!['M'],
        Symbol::N => seq!['N'],
        Symbol::NG => seq!['N', 'G'],
        Symbol::P => seq!['P'],
        Symbol::R => seq!['R'],
        Symbol::S => seq!['S'],
        Symbol::SH => seq!['S', 'H'],
        Symbol::T => seq!['T'],
        Symbol::TH => seq!['T', 'H'],
        Symbol::V => seq!['V'],
        Symbol::W => seq!['W'],
        Symbol::Y => seq!['Y'],
        Symbol::Z => seq!['Z'],
        Symbol::ZH => seq!['Z', 'H'],
    }
}

/// The stress marker a vowel phoneme carries (`None` for a consonant).
pub open spec fn stress_marker(s: Symbol) -> Option<Stress> {
    match s {
        Symbol::AA(st) => Some(st),
        Symbol::AE(st) => Some(st),
        Symbol::AH(st) => Some(st),
        Symbol::AO(st) => Some(st),
        Symbol::AW(st) => Some(st),
        Symbol::AY(st) => Some(st),
        Symbol::EH(st) => Some(st),
        Symbol::ER(st) => Some(st),
        Symbol::EY(st) => Some(st),
        Symbol::IH(st) => Some(st),
        Symbol::IY(st) => Some(st),
        Symbol::OW(st) => Some(st),
        Symbol::OY(st) => Some(st),
        Symbol::UH(st) => Some(st),
        Symbol::UW(st) => Some(st),
        _ => None,
    }
}

/// The CMU letters of a vowel.
pub open spec fn vowel_letters(v: Vowel) -> Seq<char> {
    match v {
        Vowel::Aa => seq!['A', 'A'],
        Vowel::Ae => seq!['A', 'E'],
        Vowel::Ah => seq!['A', 'H'],
        Vowel::Ao => seq!['A', 'O'],
        Vowel::Aw => seq!['A', 'W'],
        Vowel::Ay => seq!['A', 'Y'],
        Vowel::Eh => seq!['E', 'H'],
        Vowel::Er => seq!['E', 'R'],
        Vowel::Ey => seq!['E', 'Y'],
        Vowel::Ih => seq!['I', 'H'],
        Vowel::Iy => seq!['I', 'Y'],
        Vowel::Ow => seq!['O', 'W'],
        Vowel::Oy => seq!['O', 'Y'],
        Vowel::Uh => seq!['U', 'H'],
        Vowel::Uw => seq!['U', 'W'],
    }
}

/// The CMU letters of a coda consonant.
pub open spec fn consonant_letters(c: Consonant) -> Seq<char> {
    match c {
        Consonant::B => seq!['B'],
        Consonant::Ch => seq!['C', 'H'],
        Consonant::D => seq!['D'],
        Consonant::Dh => seq!['D', 'H'],
        Consonant::F => seq!['F'],
        Consonant::G => seq!['G'],
        Consonant::Jh => seq!['J', 'H'],
        Consonant::K => seq!['K'],
        Consonant::L => seq!['L'],
        Consonant::M => seq!['M'],
        Consonant::N => seq!['N'],
        Consonant::Ng => seq!['N', 'G'],
        Consonant::P => seq!['P'],
        Consonant::R => seq!['R'],
        Consonant::S => seq!['S'],
        Consonant::Sh => seq!['S', 'H'],
        Consonant::T => seq!['T'],
        Consonant::Th => seq!['T', 'H'],
        Consonant::V => seq!['V'],
        Consonant::Z => seq!['Z'],
        Consonant::Zh => seq!['Z', 'H'],
    }
}

/// Each vowel phoneme becomes the vowel written with the same letters, and
/// keeps its stress as the digit CMUdict writes for it (0 unstressed, 1
/// primary, 2 secondary); a consonant is no vowel.
pub proof fn lemma_vowel_of_names(s: Symbol)
    ensures
        vowel_of(s) is Some <==> stress_marker(s) is Some,
        vowel_of(s) matches Some(r) ==> vowel_letters(r.0) == phoneme_letters(s),
        vowel_of(s) matches Some(r) ==> (r.1 == 0 <==> stress_marker(s) == Some(Stress::Unstressed)),
        vowel_of(s) matches Some(r) ==> (r.1 == 1 <==> stress_marker(s) == Some(Stress::Primary)),
        vowel_of(s) matches Some(r) ==> (r.1 == 2 <==> stress_marker(s) == Some(Stress::Secondary)),
{
}

/// Different vowel phonemes (or one vowel under different stress) never
/// read as the same vowel and stress.
pub proof fn lemma_vowel_of_injective(s: Symbol, t: Symbol)
    requires
        vowel_of(s) is Some,
        vowel_of(s) == vowel_of(t),
    ensures
        s == t,
{
    match s {
        Symbol::AA(_) => {
            assert(t is AA);
        },
        Symbol::AE(_) => {
            assert(t is AE);
        },
        Symbol::AH(_) => {
            assert(t is AH);
        },
        Symbol::AO(_) => {
            assert(t is AO);
        },
        Symbol::AW(_) => {
            assert(t is AW);
        },
        Symbol::AY(_) => {
            assert(t is AY);
        },
        Symbol::EH(_) => {
            assert(t is EH);
        },
        Symbol::ER(_) => {
            assert(t is ER);
        },
        Symbol::EY(_) => {
            assert(t is EY);
        },
        Symbol::IH(_) => {
            assert(t is IH);
        },
        Symbol::IY(_) => {
            assert(t is IY);
        },
        Symbol::OW(_) => {
            assert(t is OW);
        },
        Symbol::OY(_) => {
            assert(t is OY);
        },
        Symbol::UH(_) => {
            assert(t is UH);
        },
        Symbol::UW(_) => {
            assert(t is UW);
        },
        _ => {},
    }
}

/// Each coda consonant phoneme becomes the consonant written with the same
/// letters; vowels and the glides HH, W, Y give none.
pub proof fn lemma_consonant_of_names(s: Symbol)
    ensures
        consonant_of(s) is Some <==> (stress_marker(s) is None && s != Symbol::HH && s != Symbol::W && s != Symbol::Y),
        consonant_of(s) matches Some(c) ==> consonant_letters(c) == phoneme_letters(s),
{
}

/// Different consonant phonemes never read as the same coda consonant.
pub proof fn lemma_consonant_of_injective(s: Symbol, t: Symbol)
    requires
        consonant_of(s) is Some,
        consonant_of(s) == consonant_of(t),
    ensures
        s == t,
{
    lemma_consonant_of_names(s);
    lemma_consonant_of_names(t);
}

pub fn symbol_is_syllable(symbol: &Symbol) -> (r: bool)
    ensures
        r == is_syllable(*symbol),
{
    match symbol {
        Symbol::AA(_) => true,
        Symbol::AE(_) => true,
        Symbol::AH(_) => true,
        Symbol::AO(_) => true,
        Symbol::AW(_) => true,
        Symbol::AY(_) => true,
        Symbol::EH(_) => true,
        Symbol::ER(_) => true,
        Symbol::EY(_) => true,
        Symbol::IH(_) => true,
        Symbol::IY(_) => true,
        Symbol::OW(_) => true,
        Symbol::OY(_) => true,
        Symbol::UH(_) => true,
        Symbol::UW(_) => true,
        _ => false,
    }
}

pub fn vowel_from_symbol(symbol: &Symbol) -> (r: Option<(Vowel, StressLevel)>)
    ensures
        r == vowel_of(*symbol),
{
    match symbol {
        Symbol::AA(st) => Some((Vowel::Aa, stress_of(st))),
        Symbol::AE(st) => Some((Vowel::Ae, stress_of(st))),
        Symbol::AH(st) => Some((Vowel::Ah, stress_of(st))),
        Symbol::AO(st) => Some((Vowel::Ao, stress_of(st))),
        Symbol::AW(st) => Some((Vowel::Aw, stress_of(st))),
        Symbol::AY(st) => Some((Vowel::Ay, stress_of(st))),
        Symbol::EH(st) => Some((Vowel::Eh, stress_of(st))),
        Symbol::ER(st) => Some((Vowel::Er, stress_of(st))),
        Symbol::EY(st) => Some((Vowel::Ey, stress_of(st))),
        Symbol::IH(st) => Some((Vowel::Ih, stress_of(st))),
        Symbol::IY(st) => Some((Vowel::Iy, stress_of(st))),
        Symbol::OW(st) => Some((Vowel::Ow, stress_of(st))),
        Symbol::OY(st) => Some((Vowel::Oy, stress_of(st))),
        Symbol::UH(st) => Some((Vowel::Uh, stress_of(st))),
        Symbol::UW(st) => Some((Vowel::Uw, stress_of(st))),
        _ => None,
    }
}

pub fn consonant_from_symbol(symbol: &Symbol) -> (r: Option<Consonant>)
    ensures
        r == consonant_of(*symbol),
{
    match symbol {
        Symbol::B => Some(Consonant::B),
        Symbol::CH => Some(Consonant::Ch),
        Symbol::D => Some(Consonant::D),
        Symbol::DH => Some(Consonant::Dh),
        Symbol::F => Some(Consonant::F),
        Symbol::G => Some(Consonant::G),
        Symbol::JH => Some(Consonant::Jh),
        Symbol::K => Some(Consonant::K),
        Symbol::L => Some(Consonant::L),
        Symbol::M => Some(Consonant::M),
        Symbol::N => Some(Consonant::N),
        Symbol::NG => Some(Consonant::Ng),
        Symbol::P => Some(Consonant::P),
        Symbol::R => Some(Consonant::R),
        Symbol::S => Some(Consonant::S),
        Symbol::SH => Some(Consonant::Sh),
        Symbol::T => Some(Consonant::T),
        Symbol::TH => Some(Consonant::Th),
        Symbol::V => Some(Consonant::V),
        Symbol::Z => Some(Consonant::Z),
        Symbol::ZH => Some(Consonant::Zh),
        _ => None,
    }
}


impl View for Syllable {
    type V = (Vowel, StressLevel, Seq<Consonant>);

    open spec fn view(&self) -> (Vowel, StressLevel, Seq<Consonant>) {
        (self.vowel, self.stress, self.coda@)
    }
}

/// The first vowel position at or after `i` in `ph`, or `ph.len()` if none.
pub open spec fn next_vowel(ph: Seq<Symbol>, i: int) -> int
    decreases ph.len() - i,
{
    if i >= ph.len() {
        ph.len() as int
    } else if is_syllable(ph[i]) {
        i
    } else {
        next_vowel(ph, i + 1)
    }
}

/// `next_vowel` finds the first vowel symbol at or after `i`, or the end.
pub proof fn lemma_next_vowel(ph: Seq<Symbol>, i: int)
    requires
        0 <= i,
    ensures
        i <= next_vowel(ph, i) || (i > ph.len() && next_vowel(ph, i) == ph.len()),
        next_vowel(ph, i) <= ph.len(),
        next_vowel(ph, i) < ph.len() ==> is_syllable(ph[next_vowel(ph, i)]),
        forall|k: int| i <= k < next_vowel(ph, i) ==> !is_syllable(#[trigger] ph[k]),
    decreases ph.len() - i,
{
    if i < ph.len() && !is_syllable(ph[i]) {
        lemma_next_vowel(ph, i + 1);
    }
}

/// The coda consonants among `run` (HH, W, Y are dropped).
pub open spec fn coda_of(run: Seq<Symbol>) -> Seq<Consonant>
    decreases run.len(),
{
    if run.len() == 0 {
        Seq::empty()
    } else {
        let rest = coda_of(run.drop_last());
        match consonant_of(run.last()) {
            Some(c) => rest.push(c),
            None => rest,
        }
    }
}

/// The syllables of `ph` whose nuclei are at vowel position `i` and after.
/// A syllable's coda is taken from the consonants up to the next vowel:
/// the first half (rounded up) of them inside the word, all of them after
/// the word's last vowel.
pub open spec fn syllables_from(ph: Seq<Symbol>, i: int) -> Seq<(Vowel, StressLevel, Seq<Consonant>)>
    decreases ph.len() - i,
{
    if i < 0 || i >= ph.len() {
        Seq::empty()
    } else {
        let next = next_vowel(ph, i + 1);
        proof {
            lemma_next_vowel(ph, i + 1);
        }
        let run = ph.subrange(i + 1, next);
        let coda_len: int = if next == ph.len() { run.len() as int } else { ((run.len() + 1) / 2) as int };
        let v = vowel_of(ph[i]).unwrap();
        seq![(v.0, v.1, coda_of(run.take(coda_len)))] + syllables_from(ph, next)
    }
}

/// The syllables of a word's pronunciation, one per vowel, in order.
pub open spec fn pronunciation_syllables(ph: Seq<Symbol>) -> Seq<(Vowel, StressLevel, Seq<Consonant>)> {
    syllables_from(ph, next_vowel(ph, 0))
}

fn next_vowel_index(ph: &[Symbol], i: usize) -> (r: usize)
    requires
        i <= ph@.len(),
    ensures
        r == next_vowel(ph@, i as int),
{
    let n = ph.len();
    let mut j = i;
    while j < n && !symbol_is_syllable(&ph[j])
        invariant
            i <= j <= n,
            n == ph@.len(),
            next_vowel(ph@, i as int) == next_vowel(ph@, j as int),
        decreases n - j,
    {
        j = j + 1;
    }
    j
}

fn coda_from(ph: &[Symbol], start: usize, end: usize) -> (r: Vec<Consonant>)
    requires
        start <= end <= ph@.len(),
    ensures
        r@ == coda_of(ph@.subrange(start as int, end as int)),
{
    let mut out: Vec<Consonant> = Vec::new();
    let mut k = start;
    while k < end
        invariant
            start <= k <= end <= ph@.len(),
            out@ == coda_of(ph@.subrange(start as int, k as int)),
        decreases end - k,
    {
        assert(ph@.subrange(start as int, k + 1).drop_last() =~= ph@.subrange(start as int, k as int));
        if let Some(c) = consonant_from_symbol(&ph[k]) {
            out.push(c);
        }
        k = k + 1;
    }
    out
}

/// Splits one word's pronunciation into `Syllable`s: one per vowel, each
/// with the first half (rounded up) of the consonants before the next vowel
/// as its coda, while the word's final syllable keeps every trailing
/// consonant. Onsets are dropped.
pub fn syllables_from_pronunciation(phonemes: &[Symbol]) -> (r: Vec<Syllable>)
    ensures
        r@.map_values(|s: Syllable| s@) == pronunciation_syllables(phonemes@),
{
    let n = phonemes.len();
    let mut out: Vec<Syllable> = Vec::new();
    let mut i = next_vowel_index(phonemes, 0);
    proof {
        lemma_next_vowel(phonemes@, 0);
    }
    while i < n
        invariant
            n == phonemes@.len(),
            i <= n,
            i < n ==> is_syllable(phonemes@[i as int]),
            out@.map_values(|s: Syllable| s@) + syllables_from(phonemes@, i as int) == pronunciation_syllables(phonemes@),
        decreases n - i,
    {
        let next = next_vowel_index(phonemes, i + 1);
        proof {
            lemma_next_vowel(phonemes@, i + 1);
        }
        let run_len = next - (i + 1);
        let coda_len = if next == n { run_len } else { (run_len + 1) / 2 };
        let coda = coda_from(phonemes, i + 1, i + 1 + coda_len);
        proof {
            assert(phonemes@.subrange(i + 1, next as int).take(coda_len as int) =~= phonemes@.subrange(i + 1, i + 1 + coda_len));
        }
        match vowel_from_symbol(&phonemes[i]) {
            Some((vowel, stress)) => {
                let ghost before = out@.map_values(|s: Syllable| s@);
                out.push(Syllable { vowel, stress, coda });
                assert(out@.map_values(|s: Syllable| s@) =~= before.push((vowel, stress, coda@)));
            }
            None => {
                assert(false);
            }
        }
        i = next;
    }
    assert(syllables_from(phonemes@, i as int) =~= Seq::empty());
    out
}

} // verus!
