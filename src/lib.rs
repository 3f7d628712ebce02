//! Publishing an HTML fragment to the clipboard in the "HTML Format" layout.
//!
//! The library holds the two parts that can be stated exactly: the encoder,
//! which wraps a fragment in the self-describing header and HTML scaffold, and
//! the transfer protocol, a state machine that decides which clipboard step
//! comes next and which error is reported. The clipboard calls themselves are
//! made by the caller, who feeds each step's outcome back to the machine.

pub mod encoder;
pub mod error;
pub mod transfer;

pub use encoder::{encode_html_document, read_html_header, HtmlDocument, HtmlOffsets};
pub use error::Error;
pub use transfer::{Action, Event, Stage, Transfer, HTML_FORMAT_NAME};
