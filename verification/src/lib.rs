//! Contract ledger.

pub mod accept;
pub mod aggregate;
pub mod apply;
pub mod articles;
pub mod bytes;
pub mod call_laws;
pub mod cells;
pub mod chain;
pub mod code;
pub mod code_laws;
pub mod custom_laws;
pub mod deed;
pub mod dump;
pub mod dump_laws;
pub mod export;
pub mod export_laws;
pub mod family_laws;
pub mod field;
pub mod forward;
pub mod history;
pub mod ledger;
pub mod ledger_export;
pub mod ledger_laws;
pub mod lineage;
pub mod memory_laws;
pub mod opid_set;
pub mod percent;
pub mod processed;
pub mod processed_laws;
pub mod query_laws;
pub mod raw;
pub mod reader;
pub mod ready_laws;
pub mod recall;
pub mod rollback;
pub mod roots_laws;
pub mod shown;
pub mod sorted;
pub mod state;
pub mod stock;
pub mod stream;
pub mod text;
pub mod transfer;
pub mod types;
pub mod ultra;
pub mod uri;
pub mod uri_bridge;
pub mod uri_laws;
pub mod uri_plain;
pub mod wire_laws;
