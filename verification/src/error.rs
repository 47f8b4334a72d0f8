use vstd::prelude::*;

verus! {

/// A fatal ingestion error carrying a human-readable description.
///
/// Every failure in this pipeline is fatal (batch ingestion, fail-fast):
/// the description is surfaced once and the run stops.
#[derive(Debug)]
pub struct AppError {
    text: String,
}

impl View for AppError {
    type V = Seq<char>;

    closed spec fn view(&self) -> Seq<char> {
        self.text@
    }
}

impl AppError {
    pub fn new(text: &str) -> (e: AppError)
        ensures
            e@ == text@,
    {
        AppError { text: text.to_owned() }
    }

    /// The error description, for reporting at the process edge.
    pub fn message(&self) -> (r: &str)
        ensures
            r@ == self@,
    {
        self.text.as_str()
    }
}

} // verus!
