//! A byte-pair-encoding (BPE) subword tokenizer: a trainer learns merge
//! rules from a corpus, and the resulting model reversibly maps text to
//! integer token sequences and back.

pub mod chars;
pub mod errors;
pub mod symbols;
pub mod reduce;
pub mod model;
pub mod trainer;
pub mod laws;

