//! Verified packet building and colour sampling for Robobloq USB LED strips.
pub mod protocol;
pub mod packet_laws;
pub mod link;
pub mod extractor;
pub mod extractor_laws;
