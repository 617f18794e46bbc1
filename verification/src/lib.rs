//! An open-addressing dictionary that interns keys: it maps each distinct key
//! to the next free integer address on first insertion and returns the same
//! address on every later insertion of an equal key.

pub mod dictionary;
pub mod key;
pub mod laws;

pub use dictionary::Dictionary;
pub use dictionary::FREE_SLOT;
pub use dictionary::NOT_FOUND;
pub use key::DictKey;
