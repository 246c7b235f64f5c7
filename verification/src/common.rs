//! What the parts of an application around the parser share: the errors
//! that they report and the trait of what emits events.

use vstd::prelude::*;
use vstd::string::StringExecFns;

verus! {

/// An error of the application around the parser.
#[derive(Debug)]
pub enum Error {
    NotImplemented,
    Unauthorized,
    NotFound,
    AlreadySubmitted,
    /// The named service is not bound.
    ServiceNotBound(&'static str),
    /// A builder failed; the text says why.
    BuilderError(&'static str),
    InitializationError,
}

impl Error {
    /// The text that describes the error.
    pub open spec fn text(self) -> Seq<char> {
        match self {
            Error::NotImplemented => "NotImplemented: method or function not implemented."@,
            Error::Unauthorized => "Unauthorized: did not pass authentication."@,
            Error::NotFound => "NotFound: could not found requested data."@,
            Error::ServiceNotBound(name) => "ServiceNotBound: Could not perform operation because '"@
                + name@ + "' is not bound."@,
            Error::BuilderError(reason) => "BuilderError: "@ + reason@,
            _ => "Unknown: error type not described"@,
        }
    }

    /// Describes the error in words.
    pub fn what(&self) -> (msg: String)
        ensures
            msg@ == self.text(),
    {
        match self {
            Error::NotImplemented => {
                "NotImplemented: method or function not implemented.".to_owned()
            },
            Error::Unauthorized => "Unauthorized: did not pass authentication.".to_owned(),
            Error::NotFound => "NotFound: could not found requested data.".to_owned(),
            Error::ServiceNotBound(name) => {
                let mut msg = "ServiceNotBound: Could not perform operation because '".to_owned();
                msg.append(name);
                msg.append("' is not bound.");
                msg
            },
            Error::BuilderError(reason) => {
                let mut msg = "BuilderError: ".to_owned();
                msg.append(reason);
                msg
            },
            _ => "Unknown: error type not described".to_owned(),
        }
    }
}

/// Something that calls its subscribers with each event of type `T`.
pub trait EventEmitter<T> {
    /// Registers `f` to be called with each event.
    fn subscribe<TF: Fn(T) + 'static>(&mut self, f: TF);
}

} // verus!
