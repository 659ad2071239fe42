use kitty::AccountId;
use kitty::Error;
use kitty::Kitty;

fn account(tag: u64) -> AccountId {
    AccountId::from_words(tag, 0, 0, 0)
}

#[test]
fn new_registry_is_empty() {
    let registry = Kitty::new();
    let nobody = account(9);
    assert_eq!(registry.balance_of(nobody), 0);
    assert_eq!(registry.owner_of(1), None);
    assert_eq!(registry.owner_of(0), None);
    assert!(registry.events().is_empty());
}

#[test]
fn mint_sets_owner_and_balance() {
    let mut registry = Kitty::new();
    let alice = account(1);
    assert_eq!(registry.mint(alice, 1), Ok(()));
    assert_eq!(registry.owner_of(1), Some(alice));
    assert_eq!(registry.balance_of(alice), 1);
    let events = registry.events();
    assert_eq!(events.len(), 1);
    assert_eq!(events[0].from, None);
    assert_eq!(events[0].to, Some(alice));
    assert_eq!(events[0].kitty_id, 1);
}

#[test]
fn mint_same_token_twice_fails() {
    let mut registry = Kitty::new();
    let alice = account(1);
    let bob = account(2);
    assert_eq!(registry.mint(alice, 7), Ok(()));
    assert_eq!(registry.mint(bob, 7), Err(Error::AlreadyOwned));
    assert_eq!(registry.mint(alice, 7), Err(Error::AlreadyOwned));
    assert_eq!(registry.owner_of(7), Some(alice));
    assert_eq!(registry.balance_of(alice), 1);
    assert_eq!(registry.balance_of(bob), 0);
    assert_eq!(registry.events().len(), 1);
}

#[test]
fn mint_by_zero_account_fails() {
    let mut registry = Kitty::new();
    let zero = AccountId::zero();
    assert_eq!(registry.mint(zero, 1), Err(Error::NotOwned));
    assert_eq!(registry.owner_of(1), None);
    assert_eq!(registry.balance_of(zero), 0);
    assert!(registry.events().is_empty());
}

#[test]
fn transfer_moves_ownership() {
    let mut registry = Kitty::new();
    let alice = account(1);
    let bob = account(2);
    assert_eq!(registry.mint(alice, 1), Ok(()));
    assert_eq!(registry.owner_of(1), Some(alice));
    assert_eq!(registry.balance_of(alice), 1);
    assert_eq!(registry.transfer(alice, bob, 1), Ok(()));
    assert_eq!(registry.owner_of(1), Some(bob));
    assert_eq!(registry.balance_of(alice), 0);
    assert_eq!(registry.balance_of(bob), 1);
    let events = registry.events();
    assert_eq!(events.len(), 2);
    let transfer_records: Vec<_> = events
        .iter()
        .filter(|e| e.from == Some(alice) && e.to == Some(bob) && e.kitty_id == 1)
        .collect();
    assert_eq!(transfer_records.len(), 1);
}

#[test]
fn transfer_nonexistent_token_fails() {
    let mut registry = Kitty::new();
    let alice = account(1);
    let bob = account(2);
    assert_eq!(registry.mint(alice, 1), Ok(()));
    assert_eq!(registry.transfer(alice, bob, 42), Err(Error::TokenDoesNotExist));
    assert_eq!(registry.owner_of(42), None);
    assert_eq!(registry.owner_of(1), Some(alice));
    assert_eq!(registry.balance_of(alice), 1);
    assert_eq!(registry.balance_of(bob), 0);
    assert_eq!(registry.events().len(), 1);
}

#[test]
fn transfer_by_stranger_fails() {
    let mut registry = Kitty::new();
    let alice = account(1);
    let bob = account(2);
    let carol = account(3);
    assert_eq!(registry.mint(alice, 1), Ok(()));
    assert_eq!(registry.transfer(carol, bob, 1), Err(Error::NotOwned));
    assert_eq!(registry.owner_of(1), Some(alice));
    assert_eq!(registry.balance_of(alice), 1);
    assert_eq!(registry.balance_of(bob), 0);
    assert_eq!(registry.balance_of(carol), 0);
    assert_eq!(registry.events().len(), 1);
}

#[test]
fn transfer_to_zero_account_fails() {
    let mut registry = Kitty::new();
    let alice = account(1);
    let zero = AccountId::zero();
    assert_eq!(registry.mint(alice, 1), Ok(()));
    assert_eq!(registry.transfer(alice, zero, 1), Err(Error::NotOwned));
    assert_eq!(registry.owner_of(1), Some(alice));
    assert_eq!(registry.balance_of(alice), 1);
    assert_eq!(registry.balance_of(zero), 0);
    assert_eq!(registry.events().len(), 1);
}

#[test]
fn transfer_to_self_keeps_ownership() {
    let mut registry = Kitty::new();
    let alice = account(1);
    assert_eq!(registry.mint(alice, 1), Ok(()));
    assert_eq!(registry.transfer(alice, alice, 1), Ok(()));
    assert_eq!(registry.owner_of(1), Some(alice));
    assert_eq!(registry.balance_of(alice), 1);
    assert_eq!(registry.events().len(), 2);
    assert_eq!(registry.events()[1].from, Some(alice));
    assert_eq!(registry.events()[1].to, Some(alice));
}

#[test]
fn balances_sum_to_token_count() {
    let mut registry = Kitty::new();
    let alice = account(1);
    let bob = account(2);
    assert_eq!(registry.mint(alice, 1), Ok(()));
    assert_eq!(registry.mint(alice, 2), Ok(()));
    assert_eq!(registry.mint(bob, 3), Ok(()));
    let total = registry.balance_of(alice) + registry.balance_of(bob);
    assert_eq!(total, 3);
    assert_eq!(registry.transfer(alice, bob, 2), Ok(()));
    let total = registry.balance_of(alice) + registry.balance_of(bob);
    assert_eq!(total, 3);
    assert_eq!(registry.balance_of(alice), 1);
    assert_eq!(registry.balance_of(bob), 2);
}

#[test]
fn account_with_many_tokens() {
    let mut registry = Kitty::new();
    let alice = account(1);
    let bob = account(2);
    assert_eq!(registry.mint(alice, 10), Ok(()));
    assert_eq!(registry.mint(alice, 20), Ok(()));
    assert_eq!(registry.balance_of(alice), 2);
    assert_eq!(registry.transfer(alice, bob, 10), Ok(()));
    assert_eq!(registry.balance_of(alice), 1);
    assert_eq!(registry.balance_of(bob), 1);
    assert_eq!(registry.owner_of(10), Some(bob));
    assert_eq!(registry.owner_of(20), Some(alice));
}

#[test]
fn default_registry_matches_new() {
    let registry = Kitty::default();
    let alice = account(1);
    assert_eq!(registry.balance_of(alice), 0);
    assert_eq!(registry.owner_of(1), None);
    assert!(registry.events().is_empty());
}

#[test]
fn reserved_error_variants_are_distinct() {
    let raised = [Error::AlreadyOwned, Error::NotOwned, Error::TokenDoesNotExist];
    for reserved in [Error::InsufficientBalance, Error::InsufficientAllowance] {
        for r in raised {
            assert_ne!(reserved, r);
        }
    }
    assert_ne!(Error::InsufficientBalance, Error::InsufficientAllowance);
}

#[test]
fn zero_account_detection() {
    assert!(AccountId::zero().is_zero());
    assert!(!account(1).is_zero());
    assert!(!AccountId::from_words(0, 0, 0, 1).is_zero());
    assert_eq!(AccountId::from_words(0, 0, 0, 0), AccountId::zero());
}
