use vstd::prelude::*;
use vstd::string::StringExecFns;

verus! {

#[verifier::external_type_specification]
#[verifier::external_body]
pub struct ExBincodeErrorKind(bincode::ErrorKind);

/// Why a batch of entries could not be decoded.
#[derive(Debug)]
pub enum DecodeError {
    Bincode(bincode::Error),
    Corruption(String),
}

/// Calls the `Display` impl of `bincode::ErrorKind` (through `ToString`).
/// Nothing is stated of the text: it depends on the error's kind and on the
/// messages of the errors it wraps.
#[verifier::external_body]
fn bincode_error_text(e: &bincode::Error) -> String {
    e.to_string()
}

impl DecodeError {
    /// The message that describes the error: `corruption: ` followed by what
    /// was found corrupt, or `bincode: ` followed by the codec's message.
    pub fn message(&self) -> (r: String)
        ensures
            self matches DecodeError::Corruption(s) ==> r@ == "corruption: "@ + s@,
            self is Bincode ==> "bincode: "@.is_prefix_of(r@),
    {
        match self {
            DecodeError::Bincode(e) => {
                let text = bincode_error_text(e);
                let r = String::from_str("bincode: ").concat(text.as_str());
                proof {
                    assert(("bincode: "@ + text@).subrange(0, "bincode: "@.len() as int)
                        =~= "bincode: "@);
                }
                r
            },
            DecodeError::Corruption(s) => String::from_str("corruption: ").concat(s.as_str()),
        }
    }
}

} // verus!
