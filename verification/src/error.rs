use vstd::prelude::*;

verus! {

/// The errors this library reports.
///
/// Construction and the builder chain never fail; only the read side
/// (deserialization and typed payload extraction) reports errors.
#[derive(Debug)]
pub enum HalError {
    /// A JSON-level failure: the input text is not valid JSON, or a JSON
    /// value does not have the shape a conversion asks for.
    Json(String),
    /// A domain-specific failure, described by a message.
    Custom(String),
}

impl HalError {
    /// The message carried by either variant.
    pub fn message(&self) -> (r: &String)
        ensures
            r@ == self.msg(),
    {
        match self {
            HalError::Json(m) => m,
            HalError::Custom(m) => m,
        }
    }

    /// The message carried by either variant, as a sequence of characters.
    pub open spec fn msg(&self) -> Seq<char> {
        match self {
            HalError::Json(m) => m@,
            HalError::Custom(m) => m@,
        }
    }
}

pub type HalResult<T> = Result<T, HalError>;

} // verus!
