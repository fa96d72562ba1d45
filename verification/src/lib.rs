//! A verified patcher for the IPS binary patch format.
//!
//! An IPS patch is a byte container framed by a five-byte magic header and a
//! three-byte terminator, holding a sequence of records. Each record either
//! writes a literal byte payload at a target offset or fills a range with one
//! repeated byte. Applying a patch copies the source image, grows it with
//! zero bytes when the final record reaches past its end, and then writes
//! every record into it in file order.

pub mod laws;
pub mod patcher;

pub use patcher::apply_patch;
pub use patcher::PatchError;
pub use patcher::Patcher;
pub use patcher::Record;
