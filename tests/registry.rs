use stash_registry::accountant::{settle, text_size, Charge, Payment};
use stash_registry::registry::Receipt;
use stash_registry::{Contract, StashError};

const ONE_NEAR: u128 = 1_000_000_000_000_000_000_000_000;
const BYTE_PRICE: u128 = 10_000_000_000_000_000_000;

fn owner() -> String {
    "alice.near".to_string()
}

fn paid(attached: u128) -> Payment {
    Payment { attached, byte_price: BYTE_PRICE }
}

fn with_stash() -> Contract {
    let mut c = Contract::new();
    c.create_stash(owner(), "Roommates".to_string(), paid(ONE_NEAR)).unwrap();
    c
}

fn usdc() -> String {
    "USDC".to_string()
}

#[test]
fn test_new_contract() {
    let contract = Contract::new();
    assert_eq!(contract.stash_count(), 0);
    assert_eq!(contract.account_count(), 0);
}

#[test]
fn test_create_stash() {
    let mut contract = Contract::new();
    contract.create_stash(owner(), "Roommates".to_string(), paid(ONE_NEAR)).unwrap();
    assert_eq!(contract.stash_count(), 1);
    assert_eq!(contract.account_count(), 1);
}

#[test]
fn test_remove_stash() {
    let mut contract = Contract::new();
    contract.create_stash(owner(), "Roommates".to_string(), paid(ONE_NEAR)).unwrap();
    let stash_id = 0;
    contract.remove_stash(&owner(), stash_id, paid(ONE_NEAR)).unwrap();
    assert!(contract.get_stash(stash_id).is_none());
}

#[test]
fn create_stash_charges_exact_storage_and_refunds_rest() {
    let mut c = Contract::new();
    let r = c.create_stash(owner(), "Roommates".to_string(), paid(ONE_NEAR)).unwrap();
    // 16 header + (4 + 9) name + (4 + 10) owner + 8 id + (4 + 10 + 4) new entry
    assert_eq!(
        r,
        Receipt { stash_id: 0, cost: 690_000_000_000_000_000_000, refund: 999_310_000_000_000_000_000_000 }
    );
    assert_eq!(r.cost + r.refund, ONE_NEAR);
    assert_eq!(c.get_stashes_for_account(&owner()), vec![0]);
    let s = c.get_stash(0).unwrap();
    assert_eq!(s.id(), 0);
    assert_eq!(s.name(), "Roommates");
    assert_eq!(s.owner(), "alice.near");
}

#[test]
fn second_stash_of_same_owner_costs_less() {
    let mut c = with_stash();
    let r = c.create_stash(owner(), "Trip".to_string(), Payment { attached: 100, byte_price: 1 }).unwrap();
    // 16 + (4 + 4) + (4 + 10) + 8, the entry already exists
    assert_eq!(r, Receipt { stash_id: 1, cost: 46, refund: 54 });
    assert_eq!(c.get_stashes_for_account(&owner()), vec![0, 1]);
    assert_eq!(c.account_count(), 1);
}

#[test]
fn exact_payment_leaves_no_refund() {
    let mut c = Contract::new();
    let r = c.create_stash(owner(), "Roommates".to_string(), Payment { attached: 69, byte_price: 1 }).unwrap();
    assert_eq!(r.cost, 69);
    assert_eq!(r.refund, 0);
}

#[test]
fn short_payment_is_refused_and_changes_nothing() {
    let mut c = Contract::new();
    let r = c.create_stash(owner(), "Roommates".to_string(), Payment { attached: 68, byte_price: 1 });
    assert_eq!(r, Err(StashError::InsufficientDeposit { required: 69, attached: 68 }));
    assert_eq!(c.stash_count(), 0);
    assert_eq!(c.account_count(), 0);
    assert_eq!(c.next_stash_id(), 0);
    assert!(c.get_stashes_for_account(&owner()).is_empty());
}

#[test]
fn short_payment_for_new_vault_keeps_balances() {
    let mut c = with_stash();
    let r = c.add_liquidity_to_stash(&owner(), 0, usdc(), 100, Payment { attached: 23, byte_price: 1 });
    // (4 + 4) asset + 16 balance
    assert_eq!(r, Err(StashError::InsufficientDeposit { required: 24, attached: 23 }));
    assert_eq!(c.vault_balance(0, &usdc()), None);
}

#[test]
fn roommates_scenario_creates_one_indexed_stash() {
    let mut c = Contract::new();
    let r = c.create_stash(owner(), "Roommates".to_string(), paid(ONE_NEAR)).unwrap();
    assert_eq!(r.stash_id, 0);
    assert_eq!(c.stash_count(), 1);
    assert_eq!(c.get_stashes_for_account(&owner()), vec![0]);
}

#[test]
fn add_then_remove_liquidity_leaves_sixty() {
    let mut c = with_stash();
    c.add_liquidity_to_stash(&owner(), 0, usdc(), 100, paid(ONE_NEAR)).unwrap();
    let r = c.remove_liquidity_from_stash(&owner(), 0, usdc(), 40, paid(ONE_NEAR)).unwrap();
    assert_eq!(r, Receipt { stash_id: 0, cost: 0, refund: ONE_NEAR });
    assert_eq!(c.vault_balance(0, &usdc()), Some(60));
}

#[test]
fn overdraw_is_refused_and_balance_kept() {
    let mut c = with_stash();
    c.add_liquidity_to_stash(&owner(), 0, usdc(), 100, paid(ONE_NEAR)).unwrap();
    c.remove_liquidity_from_stash(&owner(), 0, usdc(), 40, paid(ONE_NEAR)).unwrap();
    let r = c.remove_liquidity_from_stash(&owner(), 0, usdc(), 1000, paid(ONE_NEAR));
    assert_eq!(r, Err(StashError::InsufficientBalance));
    assert_eq!(c.vault_balance(0, &usdc()), Some(60));
}

#[test]
fn removed_stash_leaves_owner_index_empty() {
    let mut c = with_stash();
    c.remove_stash(&owner(), 0, paid(ONE_NEAR)).unwrap();
    assert!(c.get_stashes_for_account(&owner()).is_empty());
    assert_eq!(c.stash_count(), 0);
}

#[test]
fn liquidity_for_missing_stash_is_refused() {
    let mut c = with_stash();
    let r = c.add_liquidity_to_stash(&owner(), 1, usdc(), 10, paid(ONE_NEAR));
    assert_eq!(r, Err(StashError::StashNotFound));
    assert_eq!(c.vault_balance(0, &usdc()), None);
}

#[test]
fn round_trip_restores_balance() {
    let mut c = with_stash();
    c.add_liquidity_to_stash(&owner(), 0, usdc(), 7, paid(ONE_NEAR)).unwrap();
    c.add_liquidity_to_stash(&owner(), 0, usdc(), 500, paid(ONE_NEAR)).unwrap();
    c.remove_liquidity_from_stash(&owner(), 0, usdc(), 500, paid(ONE_NEAR)).unwrap();
    assert_eq!(c.vault_balance(0, &usdc()), Some(7));
}

#[test]
fn ids_are_not_reused_after_removal() {
    let mut c = with_stash();
    c.remove_stash(&owner(), 0, paid(ONE_NEAR)).unwrap();
    let r = c.create_stash(owner(), "Again".to_string(), paid(ONE_NEAR)).unwrap();
    assert_eq!(r.stash_id, 1);
    assert!(c.get_stash(0).is_none());
    assert_eq!(c.get_stashes_for_account(&owner()), vec![1]);
}

#[test]
fn removal_prunes_only_that_id() {
    let mut c = with_stash();
    c.create_stash(owner(), "Trip".to_string(), paid(ONE_NEAR)).unwrap();
    c.create_stash(owner(), "Rent".to_string(), paid(ONE_NEAR)).unwrap();
    c.remove_stash(&owner(), 1, paid(ONE_NEAR)).unwrap();
    assert_eq!(c.get_stashes_for_account(&owner()), vec![0, 2]);
}

#[test]
fn remove_missing_stash_is_refused() {
    let mut c = with_stash();
    assert_eq!(c.remove_stash(&owner(), 5, paid(ONE_NEAR)), Err(StashError::StashNotFound));
    assert_eq!(c.stash_count(), 1);
}

#[test]
fn withdraw_from_missing_vault_is_refused() {
    let mut c = with_stash();
    let r = c.remove_liquidity_from_stash(&owner(), 0, usdc(), 1, paid(ONE_NEAR));
    assert_eq!(r, Err(StashError::VaultNotFound));
}

#[test]
fn credit_past_largest_balance_is_refused() {
    let mut c = with_stash();
    c.add_liquidity_to_stash(&owner(), 0, usdc(), u128::MAX, paid(ONE_NEAR)).unwrap();
    let r = c.add_liquidity_to_stash(&owner(), 0, usdc(), 1, paid(ONE_NEAR));
    assert_eq!(r, Err(StashError::Overflow));
    assert_eq!(c.vault_balance(0, &usdc()), Some(u128::MAX));
}

#[test]
fn strangers_are_unauthorized_until_granted() {
    let mut c = with_stash();
    let bob = "bob.near".to_string();
    let r = c.add_liquidity_to_stash(&bob, 0, usdc(), 5, paid(ONE_NEAR));
    assert_eq!(r, Err(StashError::Unauthorized));
    assert_eq!(c.remove_stash(&bob, 0, paid(ONE_NEAR)), Err(StashError::Unauthorized));
    let g = c.authorize_contributor(&owner(), 0, bob.clone(), Payment { attached: 20, byte_price: 1 }).unwrap();
    // (4 + 8) for the contributor's name
    assert_eq!(g, Receipt { stash_id: 0, cost: 12, refund: 8 });
    assert!(c.get_stash(0).unwrap().is_contributor(&bob));
    c.add_liquidity_to_stash(&bob, 0, usdc(), 5, paid(ONE_NEAR)).unwrap();
    assert_eq!(c.vault_balance(0, &usdc()), Some(5));
}

#[test]
fn granting_twice_costs_nothing() {
    let mut c = with_stash();
    let bob = "bob.near".to_string();
    c.authorize_contributor(&owner(), 0, bob.clone(), paid(ONE_NEAR)).unwrap();
    let g = c.authorize_contributor(&owner(), 0, bob, Payment { attached: 3, byte_price: 1 }).unwrap();
    assert_eq!(g, Receipt { stash_id: 0, cost: 0, refund: 3 });
}

#[test]
fn add_token_opens_empty_vault_once() {
    let mut c = with_stash();
    let r = c.add_token_to_stash(&owner(), 0, "wrap.near".to_string(), Payment { attached: 50, byte_price: 1 }).unwrap();
    // (4 + 9) asset + 16 balance
    assert_eq!(r, Receipt { stash_id: 0, cost: 29, refund: 21 });
    assert_eq!(c.vault_balance(0, &"wrap.near".to_string()), Some(0));
    let again = c.add_token_to_stash(&owner(), 0, "wrap.near".to_string(), Payment { attached: 5, byte_price: 1 }).unwrap();
    assert_eq!(again, Receipt { stash_id: 0, cost: 0, refund: 5 });
    assert_eq!(c.add_token_to_stash(&owner(), 3, usdc(), paid(ONE_NEAR)), Err(StashError::StashNotFound));
}

#[test]
fn deposit_swap_changes_nothing() {
    let mut c = with_stash();
    c.add_liquidity_to_stash(&owner(), 0, usdc(), 9, paid(ONE_NEAR)).unwrap();
    c.deposit_swap(0, usdc(), "wrap.near".to_string(), 9, 1);
    assert_eq!(c.vault_balance(0, &usdc()), Some(9));
    assert_eq!(c.vault_balance(0, &"wrap.near".to_string()), None);
}

#[test]
fn settle_prices_and_refunds() {
    assert_eq!(settle(10, Payment { attached: 35, byte_price: 3 }), Ok(Charge { cost: 30, refund: 5 }));
    assert_eq!(
        settle(10, Payment { attached: 29, byte_price: 3 }),
        Err(StashError::InsufficientDeposit { required: 30, attached: 29 })
    );
    assert_eq!(
        settle(u128::MAX, Payment { attached: 1, byte_price: 2 }),
        Err(StashError::InsufficientDeposit { required: u128::MAX, attached: 1 })
    );
    assert_eq!(settle(0, Payment { attached: 7, byte_price: 9 }), Ok(Charge { cost: 0, refund: 7 }));
}

#[test]
fn text_size_counts_utf8_bytes() {
    assert_eq!(text_size(&String::new()), 4);
    assert_eq!(text_size(&"USDC".to_string()), 8);
    assert_eq!(text_size(&"é".to_string()), 6);
}

#[test]
fn unknown_account_has_no_stashes() {
    let c = with_stash();
    assert!(c.get_stashes_for_account(&"carol.near".to_string()).is_empty());
}
