//! Authenticated encryption: an Ascon-128 style AEAD, and the AeSS cipher core that
//! codes data blocks of GF(2^128) window by window through a matrix.

pub mod words;
pub mod ascon_state;
pub mod ascon_ae;
pub mod gf128;
pub mod aess_core;
pub mod aess_cipher;
