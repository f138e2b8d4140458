//! Shared key/value and error types of the storage engine around the
//! filters.

use vstd::prelude::*;
use vstd::string::StringExecFns;

verus! {

/// Sentinel value marking a deleted key.
pub const TOMBSTONE: i64 = i64::MIN;

/// Key type for engine operations.
pub type Key = i64;

/// Value type for engine operations.
pub type Value = i64;

/// `std::io::Error`, declared so it can be carried inside [`Error`]. The
/// value is opaque; only its `Display` text is ever read, through
/// `io_error_to_string`.
#[verifier::external_type_specification]
#[verifier::external_body]
pub struct ExIoError(std::io::Error);

/// Errors of the engine operations around the filters.
#[derive(Debug)]
pub enum Error {
    /// I/O failure reported by the platform.
    Io(std::io::Error),
    /// Key not present in the store.
    KeyNotFound(Key),
    /// Range query whose start lies above its end.
    InvalidRange { start: Key, end: Key },
    /// Buffer has reached capacity.
    BufferFull,
    /// Failure during compaction.
    CompactionError,
}

/// The decimal digit character for `d` in `[0, 10)`.
pub open spec fn spec_digit(d: int) -> char {
    if d == 0 {
        '0'
    } else if d == 1 {
        '1'
    } else if d == 2 {
        '2'
    } else if d == 3 {
        '3'
    } else if d == 4 {
        '4'
    } else if d == 5 {
        '5'
    } else if d == 6 {
        '6'
    } else if d == 7 {
        '7'
    } else if d == 8 {
        '8'
    } else {
        '9'
    }
}

/// The decimal digits of a natural number, most significant first.
pub open spec fn spec_dec_nat(n: nat) -> Seq<char>
    decreases n,
{
    if n < 10 {
        seq![spec_digit(n as int)]
    } else {
        spec_dec_nat(n / 10) + seq![spec_digit((n % 10) as int)]
    }
}

/// The decimal rendering of a signed 64-bit integer.
pub open spec fn spec_dec_i64(k: i64) -> Seq<char> {
    if k < 0 {
        seq!['-'] + spec_dec_nat((-(k as int)) as nat)
    } else {
        spec_dec_nat(k as nat)
    }
}

/// Relies on `i64::to_string` (std's decimal `Display` for integers): the
/// result is the value's decimal digits, with a leading '-' when negative.
#[verifier::external_body]
fn i64_to_string(k: i64) -> (r: String)
    ensures
        r@ == spec_dec_i64(k),
{
    k.to_string()
}

/// Relies on `std::io::Error`'s `Display` for the human-readable description
/// of a platform I/O failure.
#[verifier::external_body]
fn io_error_to_string(e: &std::io::Error) -> (r: String) {
    format!("{}", e)
}

impl Error {
    /// Human-readable description of the error.
    pub fn message(&self) -> (r: String)
        ensures
            (match self {
                Error::Io(_) => "I/O error: "@.is_prefix_of(r@),
                Error::KeyNotFound(k) => r@ == "Key not found: "@ + spec_dec_i64(*k),
                Error::InvalidRange { start, end } => r@ == "Invalid range: "@ + spec_dec_i64(
                    *start,
                ) + " > "@ + spec_dec_i64(*end),
                Error::BufferFull => r@ == "Buffer is full"@,
                Error::CompactionError => r@ == "Error during compaction"@,
            }),
    {
        match self {
            Error::Io(e) => {
                let r = String::from_str("I/O error: ").concat(io_error_to_string(e).as_str());
                proof {
                    assert("I/O error: "@.is_prefix_of(r@)) by {
                        assert(r@.subrange(0, "I/O error: "@.len() as int) =~= "I/O error: "@);
                    }
                }
                r
            },
            Error::KeyNotFound(k) => String::from_str("Key not found: ").concat(
                i64_to_string(*k).as_str(),
            ),
            Error::InvalidRange { start, end } => String::from_str("Invalid range: ").concat(
                i64_to_string(*start).as_str(),
            ).concat(" > ").concat(i64_to_string(*end).as_str()),
            Error::BufferFull => String::from_str("Buffer is full"),
            Error::CompactionError => String::from_str("Error during compaction"),
        }
    }
}

impl From<std::io::Error> for Error {
    /// Wrap a platform I/O failure.
    fn from(err: std::io::Error) -> Self {
        Error::Io(err)
    }
}

impl vstd::std_specs::convert::FromSpecImpl<std::io::Error> for Error {
    open spec fn obeys_from_spec() -> bool {
        true
    }

    open spec fn from_spec(e: std::io::Error) -> Self {
        Error::Io(e)
    }
}

} // verus!
