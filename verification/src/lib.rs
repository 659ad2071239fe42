//! A minimal non-fungible token registry.
//!
//! The registry tracks exclusive ownership of uniquely identified tokens
//! ("kitties") among accounts.  It supports minting new tokens, transferring
//! ownership, and answers balance and ownership queries, while enforcing the
//! core invariants: every existing token has exactly one owner, and each
//! account's stored balance equals the number of tokens it owns.

mod account;
mod registry;

pub use account::AccountId;
pub use account::KittyId;
pub use registry::Error;
pub use registry::Kitty;
pub use registry::Transfer;
pub use registry::balance_sum;
pub use registry::lemma_at_most_one_owner;
pub use registry::lemma_balance_sum_is_token_count;
pub use registry::lemma_mint_round_trip;
pub use registry::lemma_mint_twice;
pub use registry::lemma_no_tokens_zero_balance;
pub use registry::mint_effects;
pub use registry::mint_outcome;
pub use registry::transfer_effects;
pub use registry::transfer_outcome;
