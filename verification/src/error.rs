//! The error type of the library and its texts.
use crate::text;
use vstd::prelude::*;
use vstd::string::*;

verus! {

/// `std::io::Error`, the error of a failed write or read. Nothing is claimed of it: the library
/// only carries it and asks for its text.
#[verifier::external_type_specification]
#[verifier::external_body]
pub struct ExIoError(std::io::Error);

/// What can go wrong while framing or reassembling ALEPKTs.
#[derive(Debug)]
pub enum AleError {
    /// The checksum computed over a received header is not the one that it carries.
    ChecksumMismatch {
        expected: u16,
        got: u16,
    },
    /// The packet type is none of AU1, AU2, DT and DI.
    InvalidPacketType(u8),
    /// Packet length field is too small (must be >= 8).
    InvalidPacketLength(u16),
    /// The user data is larger than an ALEPKT may carry.
    PayloadTooLarge(usize),
    /// The transport failed.
    Io(std::io::Error),
}

/// What the message of a transport failure with text `text` reads.
pub open spec fn io_message_text(text: Seq<char>) -> Seq<char> {
    "ALE I/O error: "@ + text
}

impl AleError {
    /// What the message of an error other than a transport failure reads.
    pub open spec fn message_text(self) -> Seq<char> {
        match self {
            AleError::ChecksumMismatch { expected, got } => {
                "ALEPKT checksum mismatch: expected 0x"@ + text::hex4(expected) + ", got 0x"@
                    + text::hex4(got)
            },
            AleError::InvalidPacketType(t) => {
                "invalid ALEPKT packet type: "@ + text::decimal(t as nat)
            },
            AleError::InvalidPacketLength(n) => {
                "ALEPKT packet_length too small: "@ + text::decimal(n as nat) + " (minimum 8)"@
            },
            AleError::PayloadTooLarge(n) => {
                "ALEPKT payload too large: "@ + text::decimal(n as nat) + " bytes"@
            },
            AleError::Io(_) => Seq::empty(),
        }
    }

    /// The message of the error, for people.
    pub fn message(&self) -> (s: String)
        ensures
            !(self is Io) ==> s@ == self.message_text(),
            self matches AleError::ChecksumMismatch { expected, got } ==> s@
                == "ALEPKT checksum mismatch: expected 0x"@ + text::hex4(*expected) + ", got 0x"@
                + text::hex4(*got),
            self matches AleError::InvalidPacketType(t) ==> s@ == "invalid ALEPKT packet type: "@
                + text::decimal(*t as nat),
            self matches AleError::InvalidPacketLength(n) ==> s@
                == "ALEPKT packet_length too small: "@ + text::decimal(*n as nat)
                + " (minimum 8)"@,
            self matches AleError::PayloadTooLarge(n) ==> s@ == "ALEPKT payload too large: "@
                + text::decimal(*n as nat) + " bytes"@,
            self matches AleError::Io(e) ==> exists|t: String|
                to_string_from_display_ensures::<std::io::Error>(&e, t) && s@ == io_message_text(
                    t@,
                ) && s@ == "ALE I/O error: "@ + t@,
    {
        let mut s = String::new();
        match self {
            AleError::ChecksumMismatch { expected, got } => {
                s.append("ALEPKT checksum mismatch: expected 0x");
                text::append_hex4(&mut s, *expected);
                s.append(", got 0x");
                text::append_hex4(&mut s, *got);
            },
            AleError::InvalidPacketType(t) => {
                s.append("invalid ALEPKT packet type: ");
                text::append_decimal(&mut s, *t as usize);
            },
            AleError::InvalidPacketLength(n) => {
                s.append("ALEPKT packet_length too small: ");
                text::append_decimal(&mut s, *n as usize);
                s.append(" (minimum 8)");
            },
            AleError::PayloadTooLarge(n) => {
                s.append("ALEPKT payload too large: ");
                text::append_decimal(&mut s, *n);
                s.append(" bytes");
            },
            AleError::Io(e) => {
                return Self::io_message(e.to_string().as_str());
            },
        }
        s
    }

    /// The message of a transport failure whose own text is `text`.
    pub fn io_message(text: &str) -> (s: String)
        ensures
            s@ == io_message_text(text@),
            s@ == "ALE I/O error: "@ + text@,
    {
        let mut s = String::new();
        s.append("ALE I/O error: ");
        s.append(text);
        s
    }

    /// The transport failure behind the error, if it is one.
    pub fn source(&self) -> (e: Option<&std::io::Error>)
        ensures
            e == (match *self {
                AleError::Io(inner) => Some(&inner),
                _ => None::<&std::io::Error>,
            }),
    {
        match self {
            AleError::Io(e) => Some(e),
            _ => None,
        }
    }
}

impl vstd::std_specs::convert::FromSpecImpl<std::io::Error> for AleError {
    open spec fn obeys_from_spec() -> bool {
        true
    }

    open spec fn from_spec(e: std::io::Error) -> Self {
        AleError::Io(e)
    }
}

impl From<std::io::Error> for AleError {
    fn from(e: std::io::Error) -> (r: Self)
        ensures
            r == AleError::Io(e),
    {
        AleError::Io(e)
    }
}

} // verus!
