use vstd::prelude::*;

use crate::error::StashError;
use crate::stash::StashView;

verus! {

/// Bytes of a stash record besides its texts: the id and the two counts.
pub const STASH_HEADER_BYTES: u128 = 16;

/// Bytes of one stash id in an account's index entry.
pub const ID_BYTES: u128 = 8;

/// Bytes of one balance in a vault record.
pub const BALANCE_BYTES: u128 = 16;

/// Bytes of the count of ids in a new index entry.
pub const ENTRY_HEADER_BYTES: u128 = 4;

/// The payment attached to a call, and the price of one byte of storage.
#[derive(Debug, Clone, Copy, PartialEq, Eq, Structural)]
pub struct Payment {
    pub attached: u128,
    pub byte_price: u128,
}

/// What a call was charged and what is handed back to its caller.
#[derive(Debug, Clone, Copy, PartialEq, Eq, Structural)]
pub struct Charge {
    pub cost: u128,
    pub refund: u128,
}

/// The bytes a stored text takes: a four-byte length, then its UTF-8 encoding.
pub open spec fn text_bytes(t: Seq<char>) -> int {
    4 + (vstd::utf8::encode_utf8(t).len() as usize)
}

/// Storage added by creating a stash named `name` for `owner`, whose index
/// entry already exists when `indexed` holds.
pub open spec fn create_growth(name: Seq<char>, owner: Seq<char>, indexed: bool) -> int {
    STASH_HEADER_BYTES + text_bytes(name) + text_bytes(owner) + ID_BYTES + if indexed {
        0
    } else {
        text_bytes(owner) + ENTRY_HEADER_BYTES
    }
}

/// Storage added by making sure `s` has a vault for `a`.
pub open spec fn vault_growth(s: StashView, a: Seq<char>) -> int {
    if s.holds_asset(a) {
        0
    } else {
        text_bytes(a) + BALANCE_BYTES
    }
}

/// Storage added by making `account` a contributor of `s`.
pub open spec fn contributor_growth(s: StashView, account: Seq<char>) -> int {
    if s.is_contributor(account) {
        0
    } else {
        text_bytes(account)
    }
}

/// The price of `growth` bytes under `p`.
pub open spec fn required_cost(growth: int, p: Payment) -> int {
    growth * p.byte_price
}

/// The outcome of reconciling `growth` bytes against the payment `p`: refused
/// when the payment falls short (the reported requirement saturates at the
/// largest `u128`), otherwise the exact cost and the whole difference as refund.
pub open spec fn settlement(growth: int, p: Payment) -> Result<Charge, StashError> {
    let cost = required_cost(growth, p);
    if cost <= p.attached {
        Ok(Charge { cost: cost as u128, refund: (p.attached - cost) as u128 })
    } else {
        Err(
            StashError::InsufficientDeposit {
                required: if cost <= u128::MAX {
                    cost as u128
                } else {
                    u128::MAX
                },
                attached: p.attached,
            },
        )
    }
}

/// A payment is refused exactly when it is below the price of the storage,
/// and then with that price (saturated at the largest `u128`) and the payment.
pub proof fn law_cost_gate(growth: int, p: Payment)
    requires
        growth >= 0,
    ensures
        settlement(growth, p) is Err <==> p.attached < required_cost(growth, p),
        p.attached < required_cost(growth, p) ==> settlement(growth, p) == Err::<
            Charge,
            StashError,
        >(
            StashError::InsufficientDeposit {
                required: if required_cost(growth, p) <= u128::MAX {
                    required_cost(growth, p) as u128
                } else {
                    u128::MAX
                },
                attached: p.attached,
            },
        ),
{
}

/// An accepted payment is charged the price of the storage and the rest of it
/// is refunded: cost and refund add up to the payment.
pub proof fn law_exact_refund(growth: int, p: Payment)
    requires
        growth >= 0,
        p.attached >= required_cost(growth, p),
    ensures
        settlement(growth, p) matches Ok(c) && c.cost == required_cost(growth, p) && c.refund
            == p.attached - required_cost(growth, p) && c.cost + c.refund == p.attached,
{
}

/// The bytes a stored text takes.
pub fn text_size(t: &String) -> (r: u128)
    ensures
        r == text_bytes(t@),
{
    let s: &str = t.as_str();
    4 + s.len() as u128
}

/// Prices `growth` bytes and checks the payment against the price.
pub fn settle(growth: u128, p: Payment) -> (r: Result<Charge, StashError>)
    ensures
        r == settlement(growth as int, p),
{
    match growth.checked_mul(p.byte_price) {
        Some(cost) => {
            if cost <= p.attached {
                Ok(Charge { cost, refund: p.attached - cost })
            } else {
                Err(StashError::InsufficientDeposit { required: cost, attached: p.attached })
            }
        },
        None => {
            proof {
                assert(growth * p.byte_price > u128::MAX) by (nonlinear_arith)
                    requires
                        growth * p.byte_price > u128::MAX || growth * p.byte_price < 0,
                        growth >= 0,
                        p.byte_price >= 0,
                ;
            }
            Err(StashError::InsufficientDeposit { required: u128::MAX, attached: p.attached })
        },
    }
}

} // verus!
