//! Bilateral mutual-credit token channels: the per-currency credit ledger,
//! the token channel state machine with its signed message chain, and the
//! router that batches pending operations into outgoing move tokens.
pub mod crypto;
pub mod types;
pub mod encode;
pub mod mutual_credit;
pub mod token_channel;
pub mod router;
pub mod report;
pub mod friend;
pub mod app_server;
pub mod forward;
