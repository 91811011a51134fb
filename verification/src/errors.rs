//! The single error kind of the library: a human-readable message.
use vstd::prelude::*;

verus! {

/// Every failing operation of the store returns this error; the message says
/// which failure occurred.
#[derive(Debug)]
pub struct KeyStoreError {
    pub message: String,
}

impl View for KeyStoreError {
    type V = Seq<char>;

    open spec fn view(&self) -> Seq<char> {
        self.message@
    }
}

impl KeyStoreError {
    pub fn new(message: &str) -> (r: Self)
        ensures
            r@ == message@,
    {
        KeyStoreError { message: message.to_owned() }
    }

    pub fn from_string(message: String) -> (r: Self)
        ensures
            r@ == message@,
    {
        KeyStoreError { message }
    }

    /// The message carried by the error.
    pub fn message(&self) -> (r: &str)
        ensures
            r@ == self@,
    {
        self.message.as_str()
    }
}

} // verus!
