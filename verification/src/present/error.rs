//! What can go wrong while showing the preview.
use vstd::prelude::*;
use vstd::string::*;

use crate::text::decimal;
use crate::text::join;
use crate::text::push_decimal;

verus! {

#[derive(Debug, PartialEq, Eq)]
pub enum PresentError {
    /// The backend could not hand over a frame.
    Pull(String),
    /// A frame does not hold the picture it says it does.
    MalformedFrame { width: u32, height: u32, bytes: u64 },
}

/// The sentence that describes an error.
pub open spec fn message_view(e: PresentError) -> Seq<char> {
    match e {
        PresentError::Pull(reason) => "The preview could not pull a frame: "@ + reason@,
        PresentError::MalformedFrame { width, height, bytes } => "A video frame arrived malformed ("@
            + decimal(width as nat) + "x"@ + decimal(height as nat) + ", "@ + decimal(bytes as nat)
            + " bytes) and was not shown."@,
    }
}

impl PresentError {
    pub fn message(&self) -> (s: String)
        ensures
            s@ == message_view(*self),
    {
        match self {
            PresentError::Pull(reason) => join(
                "The preview could not pull a frame: ",
                reason.as_str(),
            ),
            PresentError::MalformedFrame { width, height, bytes } => {
                let mut s = "A video frame arrived malformed (".to_owned();
                push_decimal(&mut s, *width as u64);
                s.append("x");
                push_decimal(&mut s, *height as u64);
                s.append(", ");
                push_decimal(&mut s, *bytes);
                s.append(" bytes) and was not shown.");
                s
            },
        }
    }
}

} // verus!
