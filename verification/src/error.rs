use vstd::prelude::*;
use vstd::string::StringExecFns;

verus! {

/// The error payload a failed request is answered with: a plain message,
/// carried unchanged to the response body.
pub struct Error {
    message: String,
}

impl View for Error {
    type V = Seq<char>;

    closed spec fn view(&self) -> Seq<char> {
        self.message@
    }
}

impl Error {
    /// Wrap a message.
    pub fn new(message: String) -> (e: Error)
        ensures
            e@ == message@,
    {
        Error { message }
    }

    /// Wrap a message given as a borrowed string.
    pub fn from_text(message: &str) -> (e: Error)
        ensures
            e@ == message@,
    {
        Error { message: String::from_str(message) }
    }

    /// The message the error carries.
    pub fn message(&self) -> (m: &str)
        ensures
            m@ == self@,
    {
        self.message.as_str()
    }
}

} // verus!
