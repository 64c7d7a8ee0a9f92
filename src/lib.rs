//! Passive detection of stalkerware traffic on a decoy wireless access point:
//! a domain-suffix index over indicator domains, the observation model of
//! decoded packets, the matching stage, the access-point controller and the
//! framing of the local control channel.

pub mod detect;
pub mod history;
pub mod hostapd;
pub mod ioc;
pub mod json;
pub mod labels;
pub mod rpc;
pub mod suffix;
