use rhymr::phonetics::{syllables_from_pronunciation, Consonant, Stress, Symbol, Vowel};

#[test]
fn syllables_from_pronunciation_splits_internal_runs_but_not_word_final_ones() {
    let breaking = [
        Symbol::B,
        Symbol::R,
        Symbol::EY(Stress::Primary),
        Symbol::K,
        Symbol::IH(Stress::Unstressed),
        Symbol::NG,
    ];
    let syls = syllables_from_pronunciation(&breaking);
    assert_eq!(syls.len(), 2);
    assert_eq!(syls[0].coda, vec![Consonant::K]);
    assert_eq!(syls[1].coda, vec![Consonant::Ng]);

    let mold = [Symbol::M, Symbol::OW(Stress::Primary), Symbol::L, Symbol::D];
    let syls = syllables_from_pronunciation(&mold);
    assert_eq!(syls.len(), 1);
    assert_eq!(syls[0].coda, vec![Consonant::L, Consonant::D]);
}

#[test]
fn syllables_carry_vowel_and_stress() {
    let closer = [
        Symbol::K,
        Symbol::L,
        Symbol::OW(Stress::Primary),
        Symbol::S,
        Symbol::ER(Stress::Unstressed),
    ];
    let syls = syllables_from_pronunciation(&closer);
    assert_eq!(syls.len(), 2);
    assert_eq!(syls[0].vowel, Vowel::Ow);
    assert_eq!(syls[0].stress, 1);
    assert_eq!(syls[1].vowel, Vowel::Er);
    assert_eq!(syls[1].stress, 0);
    assert!(syls[1].coda.is_empty());
}

#[test]
fn no_vowel_means_no_syllable() {
    assert!(syllables_from_pronunciation(&[Symbol::S, Symbol::T]).is_empty());
    assert!(syllables_from_pronunciation(&[]).is_empty());
}

#[test]
fn paper_lines_split_into_four_syllables_each() {
    let mut line_a = syllables_from_pronunciation(&[
        Symbol::B,
        Symbol::R,
        Symbol::EY(Stress::Primary),
        Symbol::K,
        Symbol::IH(Stress::Unstressed),
        Symbol::N,
    ]);
    line_a.extend(syllables_from_pronunciation(&[Symbol::DH, Symbol::AH(Stress::Unstressed)]));
    line_a.extend(syllables_from_pronunciation(&[Symbol::M, Symbol::OW(Stress::Primary), Symbol::L, Symbol::D]));
    let mut line_b = syllables_from_pronunciation(&[
        Symbol::CH,
        Symbol::EH(Stress::Primary),
        Symbol::K,
        Symbol::IH(Stress::Unstressed),
        Symbol::N,
    ]);
    line_b.extend(syllables_from_pronunciation(&[Symbol::M, Symbol::AY(Stress::Unstressed)]));
    line_b.extend(syllables_from_pronunciation(&[Symbol::K, Symbol::OW(Stress::Primary), Symbol::D]));
    assert_eq!(line_a.len(), 4);
    assert_eq!(line_b.len(), 4);
    assert_eq!(line_a[3].coda, vec![Consonant::L, Consonant::D]);
    assert_eq!(line_b[3].coda, vec![Consonant::D]);
    assert_eq!(line_a[1].vowel, Vowel::Ih);
    assert_eq!(line_b[2].vowel, Vowel::Ay);
}
