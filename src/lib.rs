//! A ledger of pooled treasuries ("stashes"). Each stash holds one balance per
//! asset ("vault"), belongs to the account that created it and may grant other
//! accounts the right to contribute. Every mutating operation is paid for: the
//! storage it adds is priced, checked against the attached payment, and the
//! excess is handed back as a refund.

pub mod accountant;
pub mod error;
pub mod registry;
pub mod stash;

pub use error::StashError;
pub use registry::Contract;
pub use stash::{Stash, StashView, Vault};
