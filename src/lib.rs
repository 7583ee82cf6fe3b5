pub mod message;
pub mod packer;
pub mod queue;
pub mod sequence;

pub use message::MessageKind;
pub use queue::{Config, MessageIterator, MessageQueue};
pub mod laws;
