//! Messages tagged with how they should be shown.
use vstd::prelude::*;

verus! {

/// A message tagged as an error, a warning or good news.
pub enum Format<T> {
    Error(T),
    Warning(T),
    Good(T),
}

impl<T> Format<T> {
    /// The message itself.
    pub fn format(&self) -> (r: &T)
        ensures
            match self {
                Format::Error(e) => r == e,
                Format::Warning(e) => r == e,
                Format::Good(e) => r == e,
            },
    {
        match self {
            Format::Error(e) => e,
            Format::Warning(e) => e,
            Format::Good(e) => e,
        }
    }
}

} // verus!
