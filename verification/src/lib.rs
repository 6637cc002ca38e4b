//! Verified helpers for ranked search.
//!
//! Search finds passages, the hits, in the frames of an archive. The modules here read the page
//! that is asked for ([`cursor`]), order hits ([`tokens`], [`decay`]), attach what the archive
//! knows of them ([`temporal`], [`entities`]) and build the text that is handed on ([`context`]).
//! Reading the archive and floating-point arithmetic are left to callers.

pub mod calendar;
pub mod context;
pub mod cursor;
pub mod decay;
pub mod entities;
pub mod numeral;
pub mod order;
pub mod temporal;
pub mod text;
pub mod tokens;
pub mod types;
