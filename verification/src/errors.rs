//! The failures that encoding and decoding report.

use std::str::Utf8Error;
use vstd::prelude::*;
use vstd::std_specs::convert::FromSpecImpl;
use vstd::string::{to_string_from_display_ensures, StringExecFns};

verus! {

/// The reason std gives for rejecting bytes as UTF-8. Nothing inside it is
/// visible to the verifier; it is carried from the validation to the caller.
#[verifier::external_type_specification]
#[verifier::external_body]
pub struct ExUtf8Error(Utf8Error);

/// The size relation that a decode expected to hold.
#[derive(Debug, Clone, Copy, PartialEq, Eq)]
pub enum BVExpectedSize {
    LessOrEqualThan(usize),
    MoreThan(usize),
    EqualTo(usize),
}

/// A failed encode or decode.
#[derive(Debug, Clone, Copy, PartialEq, Eq)]
pub enum ByteVecError {
    /// The bytes after a valid length prefix are not UTF-8.
    StringDecodeUtf8Error(Utf8Error),
    /// A size relation does not hold: `expected` is the relation, `actual`
    /// the value that was found.
    BadSizeDecodeError { expected: BVExpectedSize, actual: usize },
    /// A count is larger than the chosen length-prefix width can express.
    OverflowError,
}

impl From<Utf8Error> for ByteVecError {
    fn from(error: Utf8Error) -> (r: ByteVecError) {
        ByteVecError::StringDecodeUtf8Error(error)
    }
}

impl FromSpecImpl<Utf8Error> for ByteVecError {
    open spec fn obeys_from_spec() -> bool {
        true
    }

    open spec fn from_spec(error: Utf8Error) -> ByteVecError {
        ByteVecError::StringDecodeUtf8Error(error)
    }
}

/// The character of the decimal digit `d`.
pub open spec fn digit(d: nat) -> char {
    if d == 0 {
        '0'
    } else if d == 1 {
        '1'
    } else if d == 2 {
        '2'
    } else if d == 3 {
        '3'
    } else if d == 4 {
        '4'
    } else if d == 5 {
        '5'
    } else if d == 6 {
        '6'
    } else if d == 7 {
        '7'
    } else if d == 8 {
        '8'
    } else {
        '9'
    }
}

/// `n` in decimal digits, without leading zeros.
pub open spec fn decimal(n: nat) -> Seq<char>
    decreases n,
{
    if n < 10 {
        seq![digit(n)]
    } else {
        decimal(n / 10).push(digit(n % 10))
    }
}

fn digit_text(d: usize) -> (s: &'static str)
    requires
        d < 10,
    ensures
        s@ == seq![digit(d as nat)],
{
    proof {
        reveal_strlit("0");
        reveal_strlit("1");
        reveal_strlit("2");
        reveal_strlit("3");
        reveal_strlit("4");
        reveal_strlit("5");
        reveal_strlit("6");
        reveal_strlit("7");
        reveal_strlit("8");
        reveal_strlit("9");
    }
    let s = if d == 0 {
        "0"
    } else if d == 1 {
        "1"
    } else if d == 2 {
        "2"
    } else if d == 3 {
        "3"
    } else if d == 4 {
        "4"
    } else if d == 5 {
        "5"
    } else if d == 6 {
        "6"
    } else if d == 7 {
        "7"
    } else if d == 8 {
        "8"
    } else {
        "9"
    };
    assert(s@ =~= seq![digit(d as nat)]);
    s
}

/// Appends `n` in decimal digits to `out`.
fn push_decimal(out: &mut String, n: usize)
    ensures
        final(out)@ == old(out)@ + decimal(n as nat),
    decreases n,
{
    if n >= 10 {
        push_decimal(out, n / 10);
    }
    let ghost before = out@;
    out.append(digit_text(n % 10));
    proof {
        let d = digit((n % 10) as nat);
        if n >= 10 {
            assert(old(out)@ + decimal((n / 10) as nat).push(d) =~= before + seq![d]);
        }
    }
}

impl BVExpectedSize {
    /// The relation in words.
    pub open spec fn text(self) -> Seq<char> {
        match self {
            BVExpectedSize::LessOrEqualThan(n) => "less or equal than "@ + decimal(n as nat),
            BVExpectedSize::MoreThan(n) => "more than "@ + decimal(n as nat),
            BVExpectedSize::EqualTo(n) => decimal(n as nat),
        }
    }
}

impl ByteVecError {
    /// What a bad size and an overflow say of themselves, and what a UTF-8
    /// failure says before it names its cause.
    pub open spec fn text(self) -> Seq<char> {
        match self {
            ByteVecError::StringDecodeUtf8Error(_) => "StringDecodeUtf8Error: "@,
            ByteVecError::BadSizeDecodeError { expected, actual } =>
                "The size expected for the structure is "@ + expected.text()
                    + ", but the size of the given buffer is "@ + decimal(actual as nat),
            ByteVecError::OverflowError =>
                "OverflowError: The size of the data structure surpasses the max value of the integral generic type"@,
        }
    }

    /// Whether `message` is what this error says of itself. A UTF-8
    /// failure says its name and then what std prints of the cause.
    pub open spec fn says(self, message: Seq<char>) -> bool {
        match self {
            ByteVecError::StringDecodeUtf8Error(cause) => exists|detail: String|
                #[trigger] to_string_from_display_ensures::<Utf8Error>(&cause, detail) && message
                    == self.text() + detail@,
            _ => message == self.text(),
        }
    }

    /// This error in words.
    pub fn message(&self) -> (message: String)
        ensures
            self.says(message@),
    {
        match self {
            ByteVecError::StringDecodeUtf8Error(cause) => {
                let detail = cause.to_string();
                let mut out = String::from_str("StringDecodeUtf8Error: ");
                out.append(detail.as_str());
                assert(to_string_from_display_ensures::<Utf8Error>(cause, detail));
                out
            },
            ByteVecError::BadSizeDecodeError { expected, actual } => {
                let mut out = String::from_str("The size expected for the structure is ");
                match expected {
                    BVExpectedSize::LessOrEqualThan(n) => {
                        let ghost before = out@;
                        out.append("less or equal than ");
                        push_decimal(&mut out, *n);
                        assert(out@ =~= before + expected.text());
                    },
                    BVExpectedSize::MoreThan(n) => {
                        let ghost before = out@;
                        out.append("more than ");
                        push_decimal(&mut out, *n);
                        assert(out@ =~= before + expected.text());
                    },
                    BVExpectedSize::EqualTo(n) => {
                        push_decimal(&mut out, *n);
                    },
                }
                out.append(", but the size of the given buffer is ");
                push_decimal(&mut out, *actual);
                out
            },
            ByteVecError::OverflowError => String::from_str(
                "OverflowError: The size of the data structure surpasses the max value of the integral generic type",
            ),
        }
    }
}

} // verus!
