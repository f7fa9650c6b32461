//! Keeps Telegram forum topics in step with local Markdown files.
use vstd::prelude::*;

pub mod addresses;
pub mod alerts;
pub mod attachments;
pub mod backfill;
pub mod buffer;
pub mod calendar;
pub mod changes;
pub mod chat;
pub mod cleanup;
pub mod config;
pub mod decimal;
pub mod destination;
pub mod durable;
pub mod errors;
pub mod faithful;
pub mod fetch;
pub mod header;
pub mod last;
pub mod layout;
pub mod marker;
pub mod merge;
pub mod mtproto;
pub mod naming;
pub mod order;
pub mod outcomes;
pub mod pull;
pub mod pulled;
pub mod push;
pub mod readback;
pub mod reordering;
pub mod results;
pub mod server;
pub mod settle;
pub mod shell_init;
pub mod showing;
pub mod since;
pub mod sort;
pub mod sync;
pub mod tag;
pub mod tasks;
pub mod text;
pub mod tidiness;
pub mod todos;
pub mod topics;
pub mod unicode;
pub mod updates;

pub use destination::{
    TelegramDestination, TopLevelId, Username, extract_group_id, telegram_chat_id,
};

verus! {

} // verus!
