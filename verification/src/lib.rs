//! A multinomial Naive Bayes text classifier over a fixed vocabulary.
//!
//! Training computes, for every class, the number of training documents
//! carrying that class and the Laplace-smoothed occurrence count of every
//! vocabulary word in those documents.  The class prior is `log2(N / N_c)`
//! and the likelihood of word `w` in class `c` is
//! `log2((count(w, c) + 1) / class_word_total(c))`, both under real-valued
//! division.  The model stores the exact integer parts of those ratios, and
//! inference compares class scores by exact rational arithmetic, which
//! orders classes exactly as the real-valued log scores do; no floating
//! point is involved, so scores that are mathematically equal are reported
//! as ties.

pub mod bignat;
pub mod laws;
pub mod model;
pub mod tok;

pub use model::Document;
pub use model::NaiveBayes;
pub use model::TrainError;
