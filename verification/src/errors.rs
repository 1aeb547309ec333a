use vstd::prelude::*;

verus! {

/// The matcher's single failure mode: no valid assignment was found within
/// the bounded budget of restart attempts.
#[derive(Debug, Clone, Copy, PartialEq, Eq, Structural)]
pub enum AppError {
    AttemptsLimitReached,
}

impl AppError {
    /// The message shown to a user for this error.
    pub fn message(&self) -> (r: String)
        ensures
            r@ == "Failed to generate secret santa, please try to remove couples or add more people"@,
    {
        proof {
            broadcast use vstd::string::to_string_from_display_ensures_for_str;

        }
        "Failed to generate secret santa, please try to remove couples or add more people".to_string()
    }
}

} // verus!
