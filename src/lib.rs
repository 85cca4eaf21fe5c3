//! A registry of named capabilities (tools, resources and prompts) with local
//! dispatch and fall-through resolution across remote peers, together with the
//! pure parts of a speech/LLM pipeline runner (configuration parsing and the
//! argument lists handed to the external programs).
pub mod capability;
pub mod registry;
pub mod config;
pub mod pipeline;
