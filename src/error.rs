use vstd::prelude::*;

verus! {

/// The cause behind an `IoFailure`.
#[derive(Debug, Clone, Copy, PartialEq, Eq, Structural)]
pub enum IoCause {
    /// The source held fewer bytes than the value required.
    UnexpectedEof,
}

/// The single failure signal of the encoder and the decoder.
#[derive(Debug, Clone, PartialEq, Eq)]
pub enum Error {
    /// A boolean (or presence flag) byte other than 0 or 1.
    InvalidBoolean,
    /// A leading byte that starts no UTF-8 sequence.
    InvalidCharWidth,
    /// Text bytes that are not valid UTF-8.
    InvalidUtf8,
    /// A length prefix that does not fit in `usize`.
    LengthOverflow,
    /// The byte source or sink failed.
    IoFailure(IoCause),
    /// A request that needs a self-describing format, or a field by name.
    UnsupportedOperation,
    /// A failure reported by the producer or consumer of the value.
    Custom(String),
}

pub type Result<T> = std::result::Result<T, Error>;

/// Which failure an `Error` is, without the message that `Custom` carries.
#[derive(Debug, Clone, Copy, PartialEq, Eq, Structural)]
pub enum ErrorKind {
    InvalidBoolean,
    InvalidCharWidth,
    InvalidUtf8,
    LengthOverflow,
    /// The input ran out: `IoFailure(IoCause::UnexpectedEof)`.
    Truncated,
    UnsupportedOperation,
    Custom,
}

impl Error {
    /// Which failure this is. Every kind but `Custom` is a single error value.
    pub open spec fn kind(&self) -> ErrorKind {
        match self {
            Error::InvalidBoolean => ErrorKind::InvalidBoolean,
            Error::InvalidCharWidth => ErrorKind::InvalidCharWidth,
            Error::InvalidUtf8 => ErrorKind::InvalidUtf8,
            Error::LengthOverflow => ErrorKind::LengthOverflow,
            Error::IoFailure(_) => ErrorKind::Truncated,
            Error::UnsupportedOperation => ErrorKind::UnsupportedOperation,
            Error::Custom(_) => ErrorKind::Custom,
        }
    }

    /// A short description of the failure.
    pub fn describe(&self) -> (r: String)
        ensures
            self is InvalidBoolean ==> r@ == "invalid boolean"@,
            self is InvalidCharWidth ==> r@ == "invalid char width"@,
            self is InvalidUtf8 ==> r@ == "invalid utf-8"@,
            self is LengthOverflow ==> r@ == "length overflow"@,
            self is IoFailure ==> r@ == "unexpected end of input"@,
            self is UnsupportedOperation ==> r@ == "unsupported operation"@,
            self is Custom ==> r@ == self->Custom_0@,
    {
        match self {
            Error::InvalidBoolean => String::from_str("invalid boolean"),
            Error::InvalidCharWidth => String::from_str("invalid char width"),
            Error::InvalidUtf8 => String::from_str("invalid utf-8"),
            Error::LengthOverflow => String::from_str("length overflow"),
            Error::IoFailure(_) => String::from_str("unexpected end of input"),
            Error::UnsupportedOperation => String::from_str("unsupported operation"),
            Error::Custom(msg) => msg.clone(),
        }
    }
}

} // verus!
