//! Core of a batch test runner: a whitespace-normalizing tokenizer, a case
//! repository that pairs input files with expected-output files, a comparator
//! that classifies a run as pass/fail/unknown, and a line diff renderer.
pub mod compare;
pub mod model;
pub mod text;
pub mod token;
