//! The words in which errors are reported.

use vstd::prelude::*;
use vstd::string::*;

use crate::client::ClientError;
use crate::protocol::{FrameError, HandshakeError};

verus! {

/// The decimal digit for a number below ten.
pub open spec fn digit_char(d: nat) -> char {
    "0123456789"@[d as int]
}

/// A number in decimal, without leading zeros.
pub open spec fn decimal(n: nat) -> Seq<char>
    decreases n,
{
    if n < 10 {
        seq![digit_char(n)]
    } else {
        decimal(n / 10).push(digit_char(n % 10))
    }
}

/// The number that a string of decimal digits denotes.
pub open spec fn denoted(digits: Seq<char>) -> nat
    decreases digits.len(),
{
    if digits.len() == 0 {
        0
    } else {
        denoted(digits.drop_last()) * 10 + (digits.last() as nat - '0' as nat) as nat
    }
}

/// A number in decimal consists of decimal digits that denote it, and begins with
/// zero only if it is zero.
pub proof fn decimal_denotes_its_number(n: nat)
    ensures
        decimal(n).len() > 0,
        forall|i: int| 0 <= i < decimal(n).len() ==> '0' <= #[trigger] decimal(n)[i] <= '9',
        denoted(decimal(n)) == n,
        decimal(n)[0] == '0' ==> n == 0 && decimal(n).len() == 1,
    decreases n,
{
    reveal_strlit("0123456789");
    assert(denoted(Seq::empty()) == 0);
    if n < 10 {
        assert(decimal(n).drop_last() =~= Seq::empty());
        assert(decimal(n).last() == digit_char(n));
    } else {
        decimal_denotes_its_number(n / 10);
        assert(decimal(n) == decimal(n / 10).push(digit_char(n % 10)));
        assert(decimal(n).drop_last() =~= decimal(n / 10));
        assert(decimal(n)[0] == decimal(n / 10)[0]);
    }
}

/// An error about a value of the wire names that value, in decimal, after the words
/// for what is wrong with it.
pub proof fn errors_name_the_value(value: u8)
    ensures
        ({
            let what = "unsupported protocol version "@;
            let words = HandshakeError::UnsupportedVersion(value).words();
            &&& what.is_prefix_of(words)
            &&& denoted(words.skip(what.len() as int)) == value
        }),
        ({
            let what = "unknown frame kind "@;
            let words = FrameError::UnknownKind(value).words();
            &&& what.is_prefix_of(words)
            &&& denoted(words.skip(what.len() as int)) == value
        }),
{
    decimal_denotes_its_number(value as nat);
    let version = "unsupported protocol version "@;
    let kind = "unknown frame kind "@;
    assert((version + decimal(value as nat)).skip(version.len() as int) =~= decimal(value as nat));
    assert((kind + decimal(value as nat)).skip(kind.len() as int) =~= decimal(value as nat));
}

/// A number in decimal, without leading zeros.
fn decimal_string(n: u8) -> (s: String)
    ensures
        s@ == decimal(n as nat),
    decreases n,
{
    proof {
        reveal_strlit("0123456789");
    }
    let digits: &str = "0123456789";
    let last: usize = (n % 10) as usize;
    let digit: &str = digits.substring_ascii(last, last + 1);
    assert(digit@ =~= seq![digit_char(n as nat % 10)]);
    if n < 10 {
        digit.to_owned()
    } else {
        let mut s: String = decimal_string(n / 10);
        s.append(digit);
        assert(s@ =~= decimal(n as nat));
        s
    }
}

/// The number in words, after what it is.
fn with_number(what: &str, n: u8) -> (s: String)
    ensures
        s@ == what@ + decimal(n as nat),
{
    let mut s: String = what.to_owned();
    let number: String = decimal_string(n);
    s.append(number.as_str());
    s
}

impl HandshakeError {
    /// The words for this error.
    pub open spec fn words(self) -> Seq<char> {
        match self {
            HandshakeError::BadMagic => "bad magic: not an mtcp connection"@,
            HandshakeError::UnsupportedVersion(v) => "unsupported protocol version "@ + decimal(
                v as nat,
            ),
        }
    }

    /// The words for this error.
    pub fn message(&self) -> (s: String)
        ensures
            s@ == self.words(),
    {
        match self {
            HandshakeError::BadMagic => "bad magic: not an mtcp connection".to_owned(),
            HandshakeError::UnsupportedVersion(v) => with_number(
                "unsupported protocol version ",
                *v,
            ),
        }
    }
}

impl FrameError {
    /// The words for this error.
    pub open spec fn words(self) -> Seq<char> {
        match self {
            FrameError::UnexpectedEof => "early eof"@,
            FrameError::PayloadTooLarge => "frame payload exceeds maximum chunk size"@,
            FrameError::UnknownKind(kind) => "unknown frame kind "@ + decimal(kind as nat),
        }
    }

    /// The words for this error.
    pub fn message(&self) -> (s: String)
        ensures
            s@ == self.words(),
    {
        match self {
            FrameError::UnexpectedEof => "early eof".to_owned(),
            FrameError::PayloadTooLarge => "frame payload exceeds maximum chunk size".to_owned(),
            FrameError::UnknownKind(kind) => with_number("unknown frame kind ", *kind),
        }
    }
}

impl ClientError {
    /// The words for this error.
    pub open spec fn words(self) -> Seq<char> {
        match self {
            ClientError::NoRemote => "at least one --remote is required"@,
            ClientError::NoStreams => "--streams must be at least 1"@,
            ClientError::NoSubConnection => "no sub-connections could be established"@,
        }
    }

    /// The words for this error.
    pub fn message(&self) -> (s: String)
        ensures
            s@ == self.words(),
    {
        match self {
            ClientError::NoRemote => "at least one --remote is required".to_owned(),
            ClientError::NoStreams => "--streams must be at least 1".to_owned(),
            ClientError::NoSubConnection => "no sub-connections could be established".to_owned(),
        }
    }
}

} // verus!
