//! lacuna: grammar practice by filling in the gaps.
//!
//! The verified core of the lacuna backend: the closed domain sets, sheets and
//! their validation, grading, review timing, language packs, what is kept
//! about each topic between sessions, what the request handlers decide, and
//! the numbers behind the statistics page.

pub mod text;
pub mod domain;
pub mod find;
pub mod sheet;
pub mod grade;
pub mod review;
pub mod pack;
pub mod calendar;
pub mod progress;
pub mod session;
pub mod stats;
