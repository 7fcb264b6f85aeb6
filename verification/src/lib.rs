//! Server-side preprocessor for documents that embed `sarascript` directive
//! blocks.
//!
//! The library parses a document into an ordered list of operations whose
//! byte spans are expressed in the coordinates of the original text, keeps a
//! work-in-progress buffer whose edit ledger translates those spans to
//! current positions while replacements of different sizes land in any
//! order, plans the HTTP fetch each directive requests, and assembles the
//! final bytes once every operation's result is in.  Everything that
//! touches the network, the filesystem or the async runtime stays with the
//! caller.

pub mod content;
pub mod error;
pub mod fetch;
pub mod http_msg;
pub mod script;
pub mod wip;
