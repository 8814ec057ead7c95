//! Topic subscriptions for Hacker News stories: the stores, their file
//! format, the bot's commands, and the rules that decide which stories get
//! announced.

pub mod api;
pub mod bot;
pub mod notify;
pub mod resources;
pub mod store;
pub mod text;
