//! The library's error type.

use vstd::prelude::*;

verus! {

/// What can go wrong inside the library's own logic.
pub enum WikiwalkError {
    DatabaseError(String),
}

impl WikiwalkError {
    /// A human-readable description of the error.
    pub fn message(&self) -> (r: String)
        ensures
            self matches WikiwalkError::DatabaseError(m) ==> r@ == "database error: "@ + m@,
    {
        match self {
            WikiwalkError::DatabaseError(m) => {
                let mut r = String::new();
                r.append("database error: ");
                r.append(m.as_str());
                r
            },
        }
    }
}

} // verus!
