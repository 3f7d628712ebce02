//! The ways publishing a fragment can fail, one per encoding stage or
//! clipboard step.
use vstd::prelude::*;

verus! {

/// Any error that may occur while setting HTML to the clipboard.
#[derive(Debug, Clone, Copy, PartialEq, Eq, Structural)]
pub enum Error {
    /// The fragment cannot be encoded: it holds a zero byte, or the document
    /// would be longer than an offset can describe.
    HtmlTemplateCreationError,
    /// The "HTML Format" name could not be registered.
    FormatRegistrationError,
    /// The clipboard could not be opened.
    OpenClipboardError,
    /// The clipboard could not be emptied.
    EmptyClipboardError,
    /// The document was not handed over to the clipboard.
    SetClipboardError,
    /// The clipboard could not be closed.
    CloseClipboardError,
    /// The shared memory block could not be allocated or filled.
    MemoryAllocationError,
}

impl Error {
    /// A short human-readable description of the error.
    pub fn message(&self) -> (r: &'static str)
        ensures
            r@ == self.spec_message()@,
    {
        match self {
            Error::HtmlTemplateCreationError => "Failed to create HTML template.",
            Error::FormatRegistrationError => "Failed to register the HTML clipboard format.",
            Error::OpenClipboardError => "Failed to open clipboard.",
            Error::EmptyClipboardError => "Failed to empty clipboard.",
            Error::SetClipboardError => "Failed to set clipboard.",
            Error::CloseClipboardError => "Failed to close clipboard.",
            Error::MemoryAllocationError => "Failed to allocate memory.",
        }
    }

    /// The description that `message` returns.
    pub open spec fn spec_message(&self) -> &'static str {
        match self {
            Error::HtmlTemplateCreationError => "Failed to create HTML template.",
            Error::FormatRegistrationError => "Failed to register the HTML clipboard format.",
            Error::OpenClipboardError => "Failed to open clipboard.",
            Error::EmptyClipboardError => "Failed to empty clipboard.",
            Error::SetClipboardError => "Failed to set clipboard.",
            Error::CloseClipboardError => "Failed to close clipboard.",
            Error::MemoryAllocationError => "Failed to allocate memory.",
        }
    }
}

} // verus!
