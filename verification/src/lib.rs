//! Verified core of a songwriting editor: syllable and word counting,
//! phonetic syllabification and rhyme grouping, dictionary completion, and
//! the bookkeeping behind the workspace's file tree, tabs, settings and git
//! integration.
pub mod strings;
pub mod text_stats;
pub mod patterns;
pub mod phonetics;
pub mod lexicon;
pub mod rhyme_highlight;
pub mod paths;
pub mod git;
pub mod file_tree;
pub mod settings;
pub mod recent;
pub mod notes;
pub mod workspace;
pub mod tools;
pub mod completion;
pub mod search;
pub mod rhyme_spans;
pub mod autosave;
pub mod style;
pub mod shortcuts;
