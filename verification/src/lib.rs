pub mod codec;
pub mod index;
pub mod replay;
pub mod store;

pub use codec::KvError;
pub use codec::Op;
pub use store::KvStore;
