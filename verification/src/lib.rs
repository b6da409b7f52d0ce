//! Engine for driving addressable LED strips from line-oriented serial
//! commands.
//!
//! The crate models one strip as a [`ws2812b::Matrix`] — a fixed-capacity
//! pixel buffer with an "active length" watermark — and a whole device as a
//! [`ws2812b::StripSet`], one matrix per hardware output channel.
//! [`transaction::parse`] turns one command line `id strip:led:r:g:b ...`
//! into in-order mutations of a live strip set; [`channel::Channel`] hands
//! complete snapshots from the command-processing side to the strip-feeding
//! side, whole copies only; and [`ws2812b::feed_frame`] turns a snapshot
//! into the exact ordered sequence of 32-bit hardware words, each strip's
//! last active pixel followed by the all-ones end-of-strip sentinel.

pub mod channel;
pub mod config;
pub mod error;
pub mod transaction;
pub mod ws2812b;
