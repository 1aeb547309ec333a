//! A secret-santa matcher: given a set of participants and a set of couple
//! exclusions, it assigns every participant another one to give a gift to,
//! so that nobody gives to themselves, nobody receives twice, no couple is
//! matched in either direction, and no two participants give to each other.
//! The assignment is randomized; an infeasible configuration is reported
//! after a bounded number of restarts.

pub mod errors;
pub mod matcher;

pub use errors::AppError;
pub use matcher::attribute_gift;
