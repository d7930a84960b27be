//! Building blocks for statistical text processing: a tokenizer that interns
//! the words of a text, keys that ignore case, counters of events, and a
//! context-window classifier for binary events.
pub mod bayesian_classification;
pub mod case_string;
pub mod collocation;
pub mod folding;
pub mod interning;
pub mod kwic;
pub mod natural;
pub mod order;
pub mod ratio;
pub mod runs;
pub mod sample;
pub mod text;
pub mod word_sequence;
