//! The issuing and redemption core of a Chaumian ecash mint.
pub mod amount;
pub mod keyset;
pub mod mint;
pub mod scheme;
pub mod types;

pub use amount::Amount;
pub use mint::Mint;
pub use types::Proof;
