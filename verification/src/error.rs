use vstd::prelude::*;
use vstd::string::StringExecFns;

verus! {

/// Error for this crate.
#[derive(Debug)]
pub enum Error {
    /// a VLQ string was malformed and data was left over
    VlqLeftover,
    /// a VLQ string was empty and no values could be decoded.
    VlqNoValues,
    /// Overflow in Vlq handling
    VlqOverflow,
    /// a JSON parsing related failure, with the parser's message
    BadJson(String),
}

/// The message of an error.
pub open spec fn error_message(e: Error) -> Seq<char> {
    match e {
        Error::VlqLeftover => "leftover cur/shift in vlq decode"@,
        Error::VlqNoValues => "vlq decode did not produce any values"@,
        Error::VlqOverflow => "vlq decode caused an overflow"@,
        Error::BadJson(m) => "bad json: "@ + m@,
    }
}

impl Error {
    /// The message that describes this error.
    pub fn message(&self) -> (res: String)
        ensures
            res@ == error_message(*self),
    {
        match self {
            Error::VlqLeftover => String::from_str("leftover cur/shift in vlq decode"),
            Error::VlqNoValues => String::from_str("vlq decode did not produce any values"),
            Error::VlqOverflow => String::from_str("vlq decode caused an overflow"),
            Error::BadJson(m) => {
                let mut s = String::from_str("bad json: ");
                s.append(m.as_str());
                s
            },
        }
    }
}

} // verus!
