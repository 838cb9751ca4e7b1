//! Planning a document from what was read of its source.

pub mod accounting;
pub mod asking;
pub mod branches;
pub mod chapters;
pub mod feedback;
pub mod generated;
pub mod levels;
pub mod messages;
pub mod outline;
pub mod places;
pub mod requests;
pub mod rounds;
pub mod shares;
pub mod stored;
pub mod tree;
pub mod views;
