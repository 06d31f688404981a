use rhymr::rhyme_highlight::{highlight_plan, orthographic_syllables, stopword, tokenize, vowel_run_syllables, RhymeDictionary, RhymeUnit};

const SAMPLE_DICT: &str = "\
aerolift EH1 R OW0 L IH2 F T\n\
allshouse(2) AO1 L T S HH AW2 S\n\
anson AE1 N S AH0 N\n\
arvizu AA0 R V IY1 Z UW0\n\
baber B EY1 B ER0\n\
bartok B AA1 R T AH0 K\n\
benequity B EH2 N EH1 K W AH0 T IY0\n\
bismuth B IH1 Z M AH0 TH\n\
bontrager B AA1 N T R EY2 G ER0\n\
brest B R EH1 S T\n\
bunks B AH1 NG K S\n\
candies K AE1 N D IY0 Z\n\
causative K AA1 Z AH0 T IH0 V\n\
chiffre SH IY1 F R AH0\n\
clothestime K L OW1 DH Z T AY1 M\n\
comstock K AA1 M S T AA2 K\n\
cormen K AO1 R M AH0 N\n\
croissant K W AA2 S AA1 N T\n\
danju D AE1 N JH UW0\n\
delebarre D EH2 L AH0 B AA1 R\n\
devereux D EH1 V ER0 UW2\n\
dismissive D IH0 S M IH1 S IH0 V\n\
downvotes D AW1 N V OW1 T S\n\
easterners IY1 S T ER0 N ER0 Z\n\
embezzlers(2) EH0 M B EH1 Z L ER0 Z\n\
erra EH1 R AH0\n\
extremes EH0 K S T R IY1 M Z\n\
ferrant F EH1 R AH0 N T\n\
freis F R IY1 Z\n\
gargantuan G AA0 R G AE1 N CH UW0 AH0 N\n\
gildner G IH1 L D N ER0\n\
gottman G AA1 T M AH0 N\n\
guay G EY1\n\
hanifin HH AE1 N IH0 F IH0 N\n\
heidrich HH AY1 D R IH0 K\n\
hires HH AY1 ER0 Z\n\
hovatter HH AA1 V AH0 T ER0\n\
imagine IH2 M AE1 JH AH0 N\n\
inseparably IH2 N S EH1 P ER0 AH0 B L IY0\n\
ivester AY2 V EH1 S T ER0\n\
kernite K ER1 N AY0 T\n\
koerner K AO1 R N ER0\n\
laboriously L AH0 B AO1 R IY0 AH0 S L IY0\n\
layhee L EY1 HH IY0\n\
lifelines L AY1 F L AY2 N Z\n\
loseke L AA1 S IH0 K\n\
magnify M AE1 G N AH0 F AY2\n\
marquai(2) M AA0 R K EY1\n\
mcelroy M AE1 K AH0 L R OY2\n\
mercurio M ER0 K UH1 R IY0 OW2\n\
mopboard M AA1 P B AO2 R D\n\
myslinski M IH0 S L IH1 N S K IY0\n\
newtonchik N UW1 T AA2 N CH IH0 K\n\
nuclei N UW1 K L IY0 AY2\n\
onions AH1 N Y AH0 N Z\n\
overseeing OW1 V ER0 S IY2 IH0 NG\n\
pasteur P AH0 S T UW1 R\n\
pervade P ER0 V EY1 D\n\
potpourri P OW2 P UH0 R IY1\n\
promiscuity(2) P R AA2 M IH0 S K Y UW1 AH0 T IY0\n\
quist K W IH1 S T\n\
rebound R IY0 B AW1 N D\n\
relman R EH1 L M AH0 N\n\
revolts R IY0 V OW1 L T S\n\
rom R AA1 M\n\
sachin S AE1 CH AH0 N\n\
scarfo S K AA1 R F OW0\n\
seamstress S IY1 M S T R IH0 S\n\
shallowness SH AE1 L OW0 N AH0 S\n\
sigg S IH1 G\n\
smolinsky S M AH0 L IH1 N S K IY0\n\
spegal S P IY1 G AH0 L\n\
steepened S T IY1 P AH0 N D\n\
stumbaugh S T AH1 M B AO2\n\
sweetness S W IY1 T N AH0 S\n\
teensy T IY1 N S IY0\n\
tiananmen T IY0 EH1 N AE0 N M EH2 N\n\
twiddle T W IH1 D AH0 L\n\
untangle AH0 N T AE1 NG G AH0 L\n\
ventilated(2) V EH1 N AH0 L EY2 T IH0 D\n\
wahl W AA1 L\n\
wesat W EH1 S AE2 T\n\
winded W IH1 N D IH0 D\n\
yarchoan Y AA0 R CH OW1 N\n\
zylka Z IH1 L K AH0\n\
above AH0 B AH1 V\n\
breaking B R EY1 K IH0 NG\n\
bright B R AY1 T\n\
candle K AE1 N D AH0 L\n\
checking CH EH1 K IH0 NG\n\
closer K L OW1 S ER0\n\
code K OW1 D\n\
day D EY1\n\
fight F AY1 T\n\
light L AY1 T\n\
love L AH1 V\n\
mold M OW1 L D\n\
my M AY1\n\
night N AY1 T\n\
say S EY1\n\
the DH AH0\n\
way W EY1\n\
";

fn sample_words() -> Vec<&'static str> {
    SAMPLE_DICT.lines().filter_map(|line| line.split_whitespace().next()).collect()
}

fn dictionary() -> RhymeDictionary {
    RhymeDictionary::from_text(SAMPLE_DICT).expect("sample dictionary parses")
}

#[test]
fn rhyme_units_never_panics_or_produces_invalid_spans_across_the_dictionary() {
    let dict = dictionary();
    for word in sample_words() {
        for unit in dict.rhyme_units(word) {
            assert!(unit.start <= unit.end, "{word:?}: unit {unit:?} has start > end");
            assert!(unit.end <= word.chars().count(), "{word:?}: unit {unit:?} runs past the word");
        }
    }
}

#[test]
fn orthographic_syllables_always_returns_target_count_spans_covering_no_more_than_the_word() {
    for word in sample_words() {
        for target in 1..=4 {
            let spans = orthographic_syllables(word, target);
            assert_eq!(spans.len(), target, "{word:?} with target {target}");
            let char_count = word.chars().count();
            for &(s, e) in &spans {
                assert!(s <= e && e <= char_count, "{word:?} target {target}: span ({s}, {e})");
            }
        }
    }
}

#[test]
fn hyphenation_fixes_syllabic_consonant_endings() {
    let units = dictionary().rhyme_units("candle");
    assert_eq!(units.len(), 2, "{units:?}");
    let word: Vec<char> = "candle".chars().collect();
    let text = |u: &RhymeUnit| word[u.start..u.end].iter().collect::<String>();
    assert_eq!(text(&units[0]), "an", "{units:?}");
    assert_eq!(text(&units[1]), "dle", "{units:?}");
}

#[test]
fn multi_syllable_word_can_produce_multiple_independent_rhyme_units() {
    let units = dictionary().rhyme_units("closer");
    assert!(units.len() >= 2, "expected multiple syllable units for \"closer\", got {units:?}");
}

#[test]
fn rhyming_words_share_a_key() {
    let dict = dictionary();
    let night = dict.rhyme_units("night");
    let light = dict.rhyme_units("light");
    assert_eq!(night.len(), 1);
    assert_eq!(light.len(), 1);
    assert_eq!(night[0].key, light[0].key);
    let day = dict.rhyme_units("day");
    assert_ne!(day[0].key, night[0].key);
}

#[test]
fn orthographic_syllables_asks_for_at_least_one_span() {
    assert_eq!(orthographic_syllables("word", 0).len(), 1);
}

#[test]
fn tokenizer_finds_words_with_inner_apostrophes() {
    let spans = tokenize("Don't stop, 'til dawn");
    let words: Vec<(usize, usize, String)> = spans.iter().map(|s| (s.start, s.end, s.text.clone())).collect();
    assert_eq!(
        words,
        vec![
            (0, 5, "Don't".to_string()),
            (6, 10, "stop".to_string()),
            (13, 16, "til".to_string()),
            (17, 21, "dawn".to_string()),
        ]
    );
}

#[test]
fn filler_words_are_stopwords() {
    assert!(stopword("the"));
    assert!(stopword("and"));
    assert!(!stopword("night"));
}

#[test]
fn rhyme_groups_collect_words_sharing_a_key_in_order() {
    let dict = dictionary();
    let groups = dict.rhyme_groups("night light day say");
    assert_eq!(groups.len(), 2);
    assert_eq!(groups[0].len(), 2);
    assert_eq!(groups[1].len(), 2);
    assert!(groups[0][0].0 < groups[1][0].0);
}

#[test]
fn stopwords_and_short_words_are_not_grouped() {
    let dict = dictionary();
    let groups = dict.rhyme_groups("the my a");
    assert!(groups.is_empty());
}

#[test]
fn only_groups_with_two_members_are_colored() {
    let groups = vec![vec![(0, 3)], vec![(4, 6), (10, 12)], vec![(20, 22), (30, 31)]];
    let plan = highlight_plan(&groups);
    assert_eq!(plan, vec![(0, 4, 6), (0, 10, 12), (1, 20, 22), (1, 30, 31)]);
}

#[test]
fn highlights_follow_the_groups() {
    let dict = dictionary();
    let text = "night light";
    let plan = dict.rhyme_highlights(text);
    assert_eq!(plan.len(), 2);
    assert_eq!(plan[0].0, 0);
    assert_eq!(plan[1].0, 0);
}

#[test]
fn vowel_runs_for_zero_syllables_fold_into_one_span() {
    let like: Vec<char> = "like".chars().collect();
    assert_eq!(vowel_run_syllables(&like, 0), vec![(1, 4)]);
    assert_eq!(vowel_run_syllables(&like, 2), vec![(1, 3), (3, 4)]);
}
