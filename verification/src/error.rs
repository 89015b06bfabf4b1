//! Validation and analysis errors of concurrency verification nets: a code,
//! a message and where the problem lies.
use vstd::prelude::*;

use crate::model::place::PlaceId;
use crate::model::transition::TransitionId;
use crate::text::{push_char, push_str, string_of};

verus! {

/// What went wrong: `V0xx` structure, `V1xx` well-formedness, `V2xx` branch
/// completeness, `V3xx` analysis, `V4xx` resource semantics.
#[derive(Debug, Clone, Copy, PartialEq, Eq, Hash, Structural)]
pub enum ErrorCode {
    /// Duplicate place.
    V001,
    /// Duplicate transition.
    V002,
    /// An arc names a missing place.
    V003,
    /// An arc names a missing transition.
    V004,
    /// An input arc of weight zero.
    V005,
    /// An output arc of weight zero.
    V006,
    /// An initial token on a missing place.
    V007,
    /// An initial value of a missing variable.
    V008,
    /// A transition without control input.
    V101,
    /// A transition with several control inputs.
    V102,
    /// A transition other than a return without control output.
    V103,
    /// Conflicting variable updates on one transition.
    V104,
    /// An unpaired branch transition.
    V201,
    /// Branch guards that are not complementary.
    V202,
    /// Switch transitions that miss a variant.
    V203,
    /// Too few tokens to fire.
    V301,
    /// The state limit was exceeded.
    V302,
    /// An expression of the wrong type.
    V303,
    /// Initial resource tokens that do not match the resource.
    V401,
    /// A reader-writer lock bound below one.
    V402,
}

/// The text of an error code.
pub open spec fn code_text(c: ErrorCode) -> Seq<char> {
    match c {
        ErrorCode::V001 => "V001"@,
        ErrorCode::V002 => "V002"@,
        ErrorCode::V003 => "V003"@,
        ErrorCode::V004 => "V004"@,
        ErrorCode::V005 => "V005"@,
        ErrorCode::V006 => "V006"@,
        ErrorCode::V007 => "V007"@,
        ErrorCode::V008 => "V008"@,
        ErrorCode::V101 => "V101"@,
        ErrorCode::V102 => "V102"@,
        ErrorCode::V103 => "V103"@,
        ErrorCode::V104 => "V104"@,
        ErrorCode::V201 => "V201"@,
        ErrorCode::V202 => "V202"@,
        ErrorCode::V203 => "V203"@,
        ErrorCode::V301 => "V301"@,
        ErrorCode::V302 => "V302"@,
        ErrorCode::V303 => "V303"@,
        ErrorCode::V401 => "V401"@,
        ErrorCode::V402 => "V402"@,
    }
}

impl ErrorCode {
    /// The text of the code, such as `V001`.
    pub fn text(&self) -> (r: String)
        ensures
            r@ == code_text(*self),
    {
        match self {
            ErrorCode::V001 => string_of("V001"),
            ErrorCode::V002 => string_of("V002"),
            ErrorCode::V003 => string_of("V003"),
            ErrorCode::V004 => string_of("V004"),
            ErrorCode::V005 => string_of("V005"),
            ErrorCode::V006 => string_of("V006"),
            ErrorCode::V007 => string_of("V007"),
            ErrorCode::V008 => string_of("V008"),
            ErrorCode::V101 => string_of("V101"),
            ErrorCode::V102 => string_of("V102"),
            ErrorCode::V103 => string_of("V103"),
            ErrorCode::V104 => string_of("V104"),
            ErrorCode::V201 => string_of("V201"),
            ErrorCode::V202 => string_of("V202"),
            ErrorCode::V203 => string_of("V203"),
            ErrorCode::V301 => string_of("V301"),
            ErrorCode::V302 => string_of("V302"),
            ErrorCode::V303 => string_of("V303"),
            ErrorCode::V401 => string_of("V401"),
            ErrorCode::V402 => string_of("V402"),
        }
    }
}

/// Where an error lies.
#[derive(Debug, Clone, PartialEq, Eq)]
pub enum ErrorLocation {
    Place(PlaceId),
    Transition(TransitionId),
    Variable(String),
    Arc { place: PlaceId, transition: TransitionId },
    TransitionPair(TransitionId, TransitionId),
    NoLocation,
}

/// A validation or analysis error.
#[derive(Debug, Clone)]
pub struct CvnError {
    pub code: ErrorCode,
    pub message: String,
    pub location: ErrorLocation,
}

impl CvnError {
    /// The error with the given code, message and location.
    pub fn new(code: ErrorCode, message: &str, location: ErrorLocation) -> (r: Self)
        ensures
            r.code == code,
            r.message@ == message@,
            r.location == location,
    {
        CvnError { code, message: message.to_owned(), location }
    }

    /// The text of the error: `[<code>] <message>`.
    pub fn text(&self) -> (r: String)
        ensures
            r@ == seq!['['] + code_text(self.code) + seq![']', ' '] + self.message@,
    {
        let mut r = string_of("[");
        proof {
            reveal_strlit("[");
        }
        let code = self.code.text();
        push_str(&mut r, code.as_str());
        push_char(&mut r, ']');
        push_char(&mut r, ' ');
        push_str(&mut r, self.message.as_str());
        r
    }
}

} // verus!
