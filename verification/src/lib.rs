//! Decryption of protected MPEG transport streams: packet and table parsing,
//! CTR-mode sample decryption, and HEVC parameter-set / SEI / Dolby Vision
//! bitstream handling.

pub mod common;
pub mod crypto;
pub mod ts;
pub mod nal;
pub mod sdr;
pub mod vui_laws;
pub mod hdr;
pub mod dolby;
pub mod hevc;
pub mod decrypt;
pub mod detect;
