//! Reading and rewriting the Vorbis comment block of an Ogg bitstream.
//!
//! The comment block is modelled as a vendor text and an ordered list of
//! key/value pairs. Every public operation carries a contract over that model,
//! over the byte layout of the block, or over the packet sequence of a
//! container.

pub mod error;
pub mod text;
pub mod comments;
pub mod codec;
pub mod container;

pub use crate::codec::make_comment_header;
pub use crate::error::Error;
pub use crate::comments::CommentHeader;
pub use crate::comments::VorbisComments;
pub use crate::container::read_comment_header;
pub use crate::container::replace_comment_header;
