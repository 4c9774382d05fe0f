//! Verified core logic of the Sprig pocket LLM terminal.
pub mod button;
pub mod dict;
pub mod display;
pub mod hid;
pub mod input;
pub mod json;
pub mod keyboard;
pub mod layout;
pub mod predict;
pub mod provider;
pub mod scan;
pub mod sse;
pub mod storage;
pub mod stream;
pub mod text;
pub mod tone;
