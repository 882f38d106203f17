use vstd::prelude::*;
use vstd::string::StringExecFns;

verus! {

/// The error classes that the host side distinguishes.  The first group are
/// driver-specific classes, the second group are the host language's native
/// error classes.
pub enum ErrorType {
    ArgumentError,
    AuthenticationError,
    BusyConnectionError,
    DriverError,
    DriverInternalError,
    NoHostAvailableError,
    NotSupportedError,
    OperationTimedOutError,
    ResponseError,
    Error,
    RangeError,
    ReferenceError,
    SyntaxError,
    TypeError,
}

impl ErrorType {
    /// The class name of this error type, as the host side spells it.
    pub open spec fn name_spec(&self) -> Seq<char> {
        match self {
            ErrorType::ArgumentError => "ArgumentError"@,
            ErrorType::AuthenticationError => "AuthenticationError"@,
            ErrorType::BusyConnectionError => "BusyConnectionError"@,
            ErrorType::DriverError => "DriverError"@,
            ErrorType::DriverInternalError => "DriverInternalError"@,
            ErrorType::NoHostAvailableError => "NoHostAvailableError"@,
            ErrorType::NotSupportedError => "NotSupportedError"@,
            ErrorType::OperationTimedOutError => "OperationTimedOutError"@,
            ErrorType::ResponseError => "ResponseError"@,
            ErrorType::Error => "Error"@,
            ErrorType::RangeError => "RangeError"@,
            ErrorType::ReferenceError => "ReferenceError"@,
            ErrorType::SyntaxError => "SyntaxError"@,
            ErrorType::TypeError => "TypeError"@,
        }
    }

    /// The class name of this error type.
    pub fn name(&self) -> (r: &'static str)
        ensures
            r@ == self.name_spec(),
    {
        match self {
            ErrorType::ArgumentError => "ArgumentError",
            ErrorType::AuthenticationError => "AuthenticationError",
            ErrorType::BusyConnectionError => "BusyConnectionError",
            ErrorType::DriverError => "DriverError",
            ErrorType::DriverInternalError => "DriverInternalError",
            ErrorType::NoHostAvailableError => "NoHostAvailableError",
            ErrorType::NotSupportedError => "NotSupportedError",
            ErrorType::OperationTimedOutError => "OperationTimedOutError",
            ErrorType::ResponseError => "ResponseError",
            ErrorType::Error => "Error",
            ErrorType::RangeError => "RangeError",
            ErrorType::ReferenceError => "ReferenceError",
            ErrorType::SyntaxError => "SyntaxError",
            ErrorType::TypeError => "TypeError",
        }
    }
}

/// The failure kinds of the codec and paging core: malformed text, a value
/// outside its permissible bounds, a protocol variant without a host mapping,
/// a number too wide for its fixed-width target, and malformed wire bytes.
#[derive(Clone, Copy, PartialEq, Eq, Structural)]
pub enum ErrorKind {
    Format,
    Range,
    UnsupportedType,
    Overflow,
    Protocol,
}

impl ErrorKind {
    /// The host-visible class name of this failure kind.
    pub open spec fn name_spec(&self) -> Seq<char> {
        match self {
            ErrorKind::Format => "FormatError"@,
            ErrorKind::Range => "RangeError"@,
            ErrorKind::UnsupportedType => "UnsupportedTypeError"@,
            ErrorKind::Overflow => "OverflowError"@,
            ErrorKind::Protocol => "ProtocolError"@,
        }
    }

    /// The host-visible class name of this failure kind.
    pub fn name(&self) -> (r: &'static str)
        ensures
            r@ == self.name_spec(),
    {
        match self {
            ErrorKind::Format => "FormatError",
            ErrorKind::Range => "RangeError",
            ErrorKind::UnsupportedType => "UnsupportedTypeError",
            ErrorKind::Overflow => "OverflowError",
            ErrorKind::Protocol => "ProtocolError",
        }
    }
}

/// A failure of the codec or paging core: a distinguishable kind plus a
/// human-readable message.  Never silently defaulted: every decode or encode
/// error is returned to the immediate caller.
pub struct CodecError {
    pub kind: ErrorKind,
    pub message: String,
}

impl CodecError {
    /// Builds an error of the given kind carrying the given message.
    pub fn new(kind: ErrorKind, message: &str) -> (r: CodecError)
        ensures
            r.kind == kind,
            r.message@ == message@,
    {
        CodecError { kind, message: message.to_owned() }
    }
}

/// An error already shaped for the host boundary: a message and the name of
/// the error class the host should raise.
pub struct ConvertedError {
    msg: String,
    name: String,
}

impl ConvertedError {
    pub closed spec fn msg_spec(&self) -> Seq<char> {
        self.msg@
    }

    pub closed spec fn name_spec(&self) -> Seq<char> {
        self.name@
    }

    /// Builds a host-boundary error from a class name and a message.
    pub fn new(name: &str, msg: &str) -> (r: ConvertedError)
        ensures
            r.name_spec() == name@,
            r.msg_spec() == msg@,
    {
        ConvertedError { msg: msg.to_owned(), name: name.to_owned() }
    }

    /// Shapes a core failure for the host boundary, keeping its kind as the
    /// class name and its message verbatim.
    pub fn from_codec(e: &CodecError) -> (r: ConvertedError)
        ensures
            r.name_spec() == e.kind.name_spec(),
            r.msg_spec() == e.message@,
    {
        ConvertedError { msg: e.message.clone(), name: e.kind.name().to_owned() }
    }

    /// The message of the error.
    pub fn message(&self) -> (r: &String)
        ensures
            r@ == self.msg_spec(),
    {
        &self.msg
    }

    /// The class name of the error.
    pub fn name(&self) -> (r: &String)
        ensures
            r@ == self.name_spec(),
    {
        &self.name
    }
}

/// The combined `Name#message` text that the binding layer hands to the host
/// when it raises a typed error.
pub fn js_typed_error_text(e: &str, error_type: &ErrorType) -> (r: String)
    ensures
        r@ == error_type.name_spec() + "#"@ + e@,
{
    let mut s = String::new();
    s.append(error_type.name());
    s.append("#");
    s.append(e);
    s
}

} // verus!
