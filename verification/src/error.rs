//! The error taxonomy of the library.

use vstd::prelude::*;
use vstd::string::*;

verus! {

/// Everything that can go wrong for a caller.
#[derive(Debug)]
pub enum KhadyotaError {
    /// An input vector has the wrong length.
    DimensionMismatch { expected: usize, got: usize },
    /// No vector is stored under this id.
    VectorNotFound(u32),
    /// The configuration, or a build, violates an invariant.
    InvalidConfig(String),
    /// A persisted frame is malformed.
    SerializationError(String),
    /// Reading or writing a file failed.
    IoError(String),
    /// Encoding or decoding a value failed.
    BincodeError(String),
    /// A query was issued before the index was built.
    IndexNotBuilt,
}

/// The decimal digits of `n`, most significant first.
pub open spec fn decimal_text(n: nat) -> Seq<char>
    decreases n,
{
    if n < 10 {
        seq![decimal_digit(n)]
    } else {
        decimal_text(n / 10).push(decimal_digit(n % 10))
    }
}

/// The character that stands for a digit below ten.
pub open spec fn decimal_digit(d: nat) -> char {
    if d == 0 {
        '0'
    } else if d == 1 {
        '1'
    } else if d == 2 {
        '2'
    } else if d == 3 {
        '3'
    } else if d == 4 {
        '4'
    } else if d == 5 {
        '5'
    } else if d == 6 {
        '6'
    } else if d == 7 {
        '7'
    } else if d == 8 {
        '8'
    } else {
        '9'
    }
}

fn digit_str(d: u64) -> (s: &'static str)
    requires
        d < 10,
    ensures
        s@ == seq![decimal_digit(d as nat)],
{
    proof {
        reveal_strlit("0");
        reveal_strlit("1");
        reveal_strlit("2");
        reveal_strlit("3");
        reveal_strlit("4");
        reveal_strlit("5");
        reveal_strlit("6");
        reveal_strlit("7");
        reveal_strlit("8");
        reveal_strlit("9");
    }
    if d == 0 {
        "0"
    } else if d == 1 {
        "1"
    } else if d == 2 {
        "2"
    } else if d == 3 {
        "3"
    } else if d == 4 {
        "4"
    } else if d == 5 {
        "5"
    } else if d == 6 {
        "6"
    } else if d == 7 {
        "7"
    } else if d == 8 {
        "8"
    } else {
        "9"
    }
}

/// Renders `n` in decimal.
pub fn decimal(n: u64) -> (s: String)
    ensures
        s@ == decimal_text(n as nat),
    decreases n,
{
    if n < 10 {
        String::from_str(digit_str(n))
    } else {
        let mut s = decimal(n / 10);
        s.append(digit_str(n % 10));
        s
    }
}

/// Appends `n` in decimal.
pub fn append_decimal(s: &mut String, n: u64)
    ensures
        final(s)@ == old(s)@ + decimal_text(n as nat),
{
    let digits = decimal(n);
    s.append(digits.as_str());
}

impl KhadyotaError {
    /// The text shown for this error.
    pub open spec fn message_text(self) -> Seq<char> {
        match self {
            KhadyotaError::DimensionMismatch { expected, got } => {
                "Invalid vector dimension: expected "@ + decimal_text(expected as nat) + ", got "@
                    + decimal_text(got as nat)
            },
            KhadyotaError::VectorNotFound(id) => "Vector not found: "@ + decimal_text(id as nat),
            KhadyotaError::InvalidConfig(m) => "Invalid configuration: "@ + m@,
            KhadyotaError::SerializationError(m) => "Serialization error: "@ + m@,
            KhadyotaError::IoError(m) => "IO error: "@ + m@,
            KhadyotaError::BincodeError(m) => "Bincode error: "@ + m@,
            KhadyotaError::IndexNotBuilt => "Index not built. Call build_index() first."@,
        }
    }

    /// Renders the error for a reader.
    pub fn message(&self) -> (s: String)
        ensures
            s@ == self.message_text(),
    {
        match self {
            KhadyotaError::DimensionMismatch { expected, got } => {
                let mut s = String::from_str("Invalid vector dimension: expected ");
                let e = decimal(*expected as u64);
                s.append(e.as_str());
                s.append(", got ");
                let g = decimal(*got as u64);
                s.append(g.as_str());
                s
            },
            KhadyotaError::VectorNotFound(id) => {
                let mut s = String::from_str("Vector not found: ");
                let d = decimal(*id as u64);
                s.append(d.as_str());
                s
            },
            KhadyotaError::InvalidConfig(m) => {
                let mut s = String::from_str("Invalid configuration: ");
                s.append(m.as_str());
                s
            },
            KhadyotaError::SerializationError(m) => {
                let mut s = String::from_str("Serialization error: ");
                s.append(m.as_str());
                s
            },
            KhadyotaError::IoError(m) => {
                let mut s = String::from_str("IO error: ");
                s.append(m.as_str());
                s
            },
            KhadyotaError::BincodeError(m) => {
                let mut s = String::from_str("Bincode error: ");
                s.append(m.as_str());
                s
            },
            KhadyotaError::IndexNotBuilt => String::from_str(
                "Index not built. Call build_index() first.",
            ),
        }
    }
}

} // verus!
