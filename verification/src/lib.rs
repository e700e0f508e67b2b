//! Auralis agent-side library: tool protocol, registry, planning, sessions,
//! release checks and small configuration contracts, with their behaviour
//! stated and proved.

pub mod text;
pub mod tool_protocol;
pub mod protocol_text;
pub mod protocol_codec;
pub mod fingerprint;
pub mod order;
pub mod tool_registry;
pub mod permissions;
pub mod planner;
pub mod trace;
pub mod plan_executor;
pub mod tool_provider;
pub mod session_memory;
pub mod session;
pub mod sec_overflow;
pub mod recurrent;
pub mod tokenizer;
pub mod sec_path;
pub mod model;
pub mod numeric;
pub mod optim;
pub mod scheduler;
pub mod position;
pub mod simd;
pub mod moe;
pub mod reasoning_suite;
pub mod modality;
pub mod vision;
pub mod video;
pub mod sec;
pub mod release;
pub mod run_config;
