//! Kana–kanji conversion engine: romaji input, dictionary trie, Viterbi
//! lattice search with learned preferences, several conversions, spelling
//! suggestions, live conversion state, dictionary sources and the text
//! handling around a language model.

pub mod text;
pub mod romaji;
pub mod composition;
pub mod dictionary;
pub mod distance;
pub mod learned;
pub mod lattice;
pub mod scoring;
pub mod viterbi;
pub mod construct;
pub mod convert;
pub mod context;
pub mod fuzzy;
pub mod nbest;
pub mod incremental;
pub mod llm;
pub mod ipadic;
pub mod keys;
pub mod records;
pub mod typo;
pub mod session;
pub mod command;
pub mod keyroute;
pub mod live;
pub mod settings;

pub use romaji::RomajiConverter;
pub use composition::{CompositionState, InputContext, should_auto_convert};
pub use text::{hiragana_to_katakana, katakana_to_hiragana};
pub use dictionary::{CharCategory, ConnectionMatrix, Dictionary, PosId, TrieNode, WordEntry, WordRef};
pub use lattice::{Lattice, LatticeNode};
pub use viterbi::ViterbiConverter;
pub use incremental::{IncrementalViterbi, LiveConversionContext};
pub use keys::CandidateKind;
pub use records::{ConversionHistoryEntry, NoopReranker, SerializableDictionary, SerializableWordEntry, UserDictEntry};
pub use typo::{TypoCandidate, TypoCorrector};
pub use llm::{LlmBackend, LlmConfig, OllamaBackend};
