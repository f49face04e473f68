pub mod chat;
pub mod config;
pub mod console;
pub mod notify;
pub mod stream;
pub mod system_prompt;
pub mod turn;
pub mod wrap;
