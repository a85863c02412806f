use vstd::prelude::*;

verus! {

/// Why a registry operation was refused. A refused operation changes nothing.
#[derive(Debug, Clone, Copy, PartialEq, Eq, Structural)]
pub enum StashError {
    /// No live stash has the given id.
    StashNotFound,
    /// The stash holds no vault for the given asset.
    VaultNotFound,
    /// Crediting the vault would exceed the largest representable balance.
    Overflow,
    /// The withdrawal is larger than the vault's balance.
    InsufficientBalance,
    /// The attached payment does not cover the storage the operation needs.
    InsufficientDeposit { required: u128, attached: u128 },
    /// The caller is neither the stash's owner nor one of its contributors.
    Unauthorized,
}

} // verus!
