//! The shared error type.
use vstd::prelude::*;
use vstd::string::StringExecFns;

verus! {

#[verifier::external_type_specification]
#[verifier::external_body]
pub struct ExIoError(std::io::Error);

/// Errors that can be produced by AeroLSM components.
#[non_exhaustive]
#[derive(Debug)]
pub enum Error {
    /// An I/O operation failed in a storage backend.
    Io(std::io::Error),
    /// The engine, or one of its components, has been shut down.
    Closed,
    /// Stored data failed an integrity check (bad magic, checksum mismatch,
    /// truncated record, ...).
    Corruption(String),
    /// An operation received an argument that violates an invariant.
    InvalidArgument(String),
    /// A component-specific error described by a human-readable message.
    Other(String),
}

/// Builds the `std::io::Error` of kind `UnexpectedEof` that a backend reports
/// for a read past its end. Calls `std::io::Error::new`; nothing is claimed of
/// the value, which Verus sees as opaque.
#[verifier::external_body]
pub(crate) fn unexpected_eof(msg: &str) -> std::io::Error {
    std::io::Error::new(std::io::ErrorKind::UnexpectedEof, msg.to_owned())
}

/// Renders an I/O error with its `Display` implementation
/// (`<std::io::Error as std::fmt::Display>::fmt`, through `format!`). The text
/// comes from the operating system for OS errors, so nothing is claimed of it.
#[verifier::external_body]
fn io_error_text(e: &std::io::Error) -> String {
    format!("{e}")
}

impl Error {
    /// The human-readable description of the error: a fixed prefix naming
    /// the kind, followed by the detail the error carries.
    pub fn message(&self) -> (s: String)
        ensures
            match self {
                Error::Io(_) => exists|t: Seq<char>| s@ == "i/o error: "@ + t,
                Error::Closed => s@ == "engine component is closed"@,
                Error::Corruption(m) => s@ == "data corruption: "@ + m@,
                Error::InvalidArgument(m) => s@ == "invalid argument: "@ + m@,
                Error::Other(m) => s@ == m@,
            },
    {
        match self {
            Error::Io(e) => {
                let detail = io_error_text(e);
                let mut s = String::from_str("i/o error: ");
                s.append(detail.as_str());
                s
            },
            Error::Closed => String::from_str("engine component is closed"),
            Error::Corruption(m) => {
                let mut s = String::from_str("data corruption: ");
                s.append(m.as_str());
                s
            },
            Error::InvalidArgument(m) => {
                let mut s = String::from_str("invalid argument: ");
                s.append(m.as_str());
                s
            },
            Error::Other(m) => String::from_str(m.as_str()),
        }
    }
}

impl From<std::io::Error> for Error {
    fn from(value: std::io::Error) -> (e: Error) {
        Error::Io(value)
    }
}

impl vstd::std_specs::convert::FromSpecImpl<std::io::Error> for Error {
    open spec fn obeys_from_spec() -> bool {
        true
    }

    open spec fn from_spec(value: std::io::Error) -> Error {
        Error::Io(value)
    }
}

/// The decimal digits of `n`, as ASCII bytes, most significant first.
pub open spec fn decimal_ascii(n: nat) -> Seq<u8>
    decreases n,
{
    if n < 10 {
        seq![(48 + n) as u8]
    } else {
        decimal_ascii(n / 10).push((48 + n % 10) as u8)
    }
}

/// The characters that ASCII bytes stand for.
pub open spec fn ascii_chars(b: Seq<u8>) -> Seq<char> {
    b.map_values(|x: u8| x as char)
}

/// Decimal digits are ASCII.
pub proof fn lemma_decimal_ascii(n: nat)
    ensures
        decimal_ascii(n).len() >= 1,
        forall|i: int| 0 <= i < decimal_ascii(n).len() ==> 48 <= #[trigger] decimal_ascii(n)[i] < 58,
    decreases n,
{
    if n >= 10 {
        lemma_decimal_ascii(n / 10);
    }
}

/// Writes `n` in decimal, as ASCII bytes.
pub fn decimal_digits(n: u64) -> (r: Vec<u8>)
    ensures
        r@ == decimal_ascii(n as nat),
    decreases n,
{
    if n < 10 {
        let d: u8 = n as u8;
        vec![48u8 + d]
    } else {
        let mut v = decimal_digits(n / 10);
        let d: u8 = (n % 10) as u8;
        v.push(48u8 + d);
        v
    }
}

/// Turns ASCII bytes into the `String` of the same characters, with
/// `String::from_utf8`. ASCII is valid UTF-8 in which each byte is one
/// character, so the conversion cannot fail here.
#[verifier::external_body]
pub(crate) fn ascii_string(bytes: Vec<u8>) -> (s: String)
    requires
        forall|i: int| 0 <= i < bytes@.len() ==> #[trigger] bytes@[i] < 128,
    ensures
        s@ == ascii_chars(bytes@),
{
    match String::from_utf8(bytes) {
        Ok(s) => s,
        Err(_) => String::new(),
    }
}

/// A corruption error carrying `prefix` followed by `n` in decimal.
pub(crate) fn corruption_with_number(prefix: &str, n: u64) -> (e: Error)
    ensures
        e matches Error::Corruption(m) && m@ == prefix@ + ascii_chars(decimal_ascii(n as nat)),
{
    let digits = decimal_digits(n);
    proof {
        lemma_decimal_ascii(n as nat);
    }
    let text = ascii_string(digits);
    let mut m = String::from_str(prefix);
    m.append(text.as_str());
    Error::Corruption(m)
}

/// A corruption error carrying `msg`.
pub(crate) fn corruption(msg: &str) -> (e: Error)
    ensures
        e matches Error::Corruption(m) && m@ == msg@,
{
    Error::Corruption(msg.to_owned())
}

} // verus!
