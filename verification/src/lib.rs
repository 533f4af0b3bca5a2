//! Reconstruction of lost word boundaries in running text.
//!
//! Given a text whose spaces were stripped (for instance text pulled out of a
//! justified PDF, with residual line-break hyphenation and ligature
//! artifacts), the library rebuilds plausible word boundaries with a
//! statistical language model and then normalizes the spacing around
//! punctuation so the result reads as prose.
//!
//! The pipeline runs in five stages, each consuming the full output of the
//! previous one:
//!
//! 1. hyphen join: `letter-letter` hyphenation artifacts are collapsed;
//! 2. run classification: the text is partitioned into segmentable runs
//!    (maximal spans of ASCII letters, ligatures expanded) and passthrough
//!    runs (everything else);
//! 3. statistical segmentation: each segmentable run is split into the
//!    likeliest sequence of dictionary words by a dynamic program over
//!    unigram and bigram weights, falling back to the verbatim run when no
//!    split scores above the validity floor;
//! 4. assembly: words and passthrough runs are rejoined in original order;
//! 5. punctuation normalization: ordered spacing rules tighten the result.

pub mod chars;
pub mod hyphen;
pub mod classify;
pub mod table;
pub mod segment;
pub mod punct;
pub mod punct_laws;
pub mod assemble;
pub mod pipeline;
