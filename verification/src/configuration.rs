//! The process configuration: bot identity and the two credentials. It is
//! read from a settings file at startup by the surrounding program and
//! handed in as a plain value; nothing here touches a file.

use vstd::prelude::*;

verus! {

/// Secret credentials: the chat-platform token and the completion-API key.
#[derive(Debug, Clone, PartialEq)]
pub struct Secrets {
    pub discord_token: String,
    pub openrouter_token: String,
}

/// The bot's own identity settings.
#[derive(Debug, Clone, PartialEq)]
pub struct BotConfig {
    pub name: String,
}

/// The whole configuration record, immutable for the process lifetime.
#[derive(Debug, Clone, PartialEq)]
pub struct Config {
    pub secrets: Secrets,
    pub bot: BotConfig,
}

} // verus!
