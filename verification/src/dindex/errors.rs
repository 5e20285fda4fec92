use vstd::prelude::*;

verus! {

/// Why bytes could not be read back as a `DIndex`.
#[derive(Debug, Clone, PartialEq, Eq)]
pub struct DeserializationError(String);

impl View for DeserializationError {
    type V = Seq<char>;

    closed spec fn view(&self) -> Seq<char> {
        self.0@
    }
}

impl DeserializationError {
    pub fn new(msg: &str) -> (e: DeserializationError)
        ensures
            e@ == msg@,
    {
        DeserializationError(msg.to_owned())
    }

    /// The message of the error.
    pub fn message(&self) -> (msg: String)
        ensures
            msg@ == self@,
    {
        self.0.clone()
    }
}

} // verus!
