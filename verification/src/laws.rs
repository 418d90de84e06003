//! What holds of the library as a whole: laws that relate several functions,
//! stated over the same models as the functions' own contracts.

pub mod admission;
pub mod amounts;
pub mod answers;
pub mod approximation;
pub mod auction;
pub mod choice;
pub mod clearing;
pub mod economics;
pub mod identifiers;
pub mod jobs;
pub mod mempool;
pub mod nearest;
pub mod payouts;
pub mod precision;
pub mod reading;
pub mod seeding;
pub mod selection;
pub mod views;
