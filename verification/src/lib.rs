//! Watching a DOCSIS plant's provisioning traffic: reading frames, counting
//! what they were, judging whether the plant is working, and writing down who
//! is told about it.

pub mod adapt;
pub mod addr;
pub mod alarm;
pub mod capture;
pub mod clock;
pub mod config;
pub mod counters;
pub mod email;
pub mod host;
pub mod json;
pub mod logfiles;
pub mod packet;
pub mod ratio;
pub mod relays;
pub mod snmp;
pub mod text;
pub mod version;
