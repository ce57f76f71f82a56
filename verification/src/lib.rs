//! A verified core for a chat-bot command engine: a per-user coin ledger,
//! economy commands (`!gamble`, `!set_coins`, `!add_coins`), static
//! line-picking commands, a command registry with dispatch, and a persistence
//! codec with a proved save/load round trip.

pub mod bot;
pub mod codec;
pub mod ledger;
pub mod parse;
mod rng;
pub mod store;
