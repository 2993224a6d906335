//! Text utilities in the style of the classic command-line tools, with
//! their decision logic stated as contracts and proved.
//!
//! The centre of the crate is [`tail`]: it reads a signed count such as
//! `"+3"` or `"-20"`, resolves it against the extent of a resource, and
//! selects the window of lines or bytes to emit.

pub mod text;
pub mod tail;
pub mod wc;
pub mod cal;
pub mod ls;
pub mod cut;
pub mod uniq;
pub mod comm;
pub mod cat;
pub mod fortune;
pub mod find;
pub mod head;
