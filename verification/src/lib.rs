//! Pixels in a terminal, over the kitty graphics protocol.
//!
//! The protocol uploads a rectangle of RGBA pixels, then places it at a character cell.
//! This library decides what to upload, what to place and what to take off the screen, and
//! writes the escape sequences that say so. Each distinct image goes up once, and after
//! that only what changed is sent.
//!
//! - [`proto`] writes the escape sequences; [`screen`] models what a terminal makes of
//!   them. [`reading`] proves that it can read them in one way only, [`fields`] what it
//!   finds under each key, and [`decoding`] that the pixels come out of them again.
//! - [`cache`], [`slots`] and [`pass`] are the bookkeeping that every pass shares: which
//!   images are uploaded, what is placed, and what is stale.
//! - [`ghosting`], [`items`] and [`ticks`] hold the laws of drawing: what is on screen is
//!   what was drawn, nothing is uploaded twice, a still scene costs no bytes, and passes
//!   leave each other alone.
//! - [`sprite`], [`text`] and [`ui`] are the passes; [`frame`] sends whole frames instead.
//! - [`pixels`] and [`colour`] prepare bitmaps, [`label`] and [`digits`] name them.
//! - [`term`] and [`parse`] find out how big the terminal is, [`input`] says what its
//!   events mean, and [`config`] which parts run.

pub mod cache;
pub mod colour;
pub mod config;
pub mod decoding;
pub mod digits;
pub mod fields;
pub mod frame;
pub mod ghosting;
pub mod input;
pub mod items;
pub mod label;
pub mod parse;
pub mod pass;
pub mod pixels;
pub mod proto;
pub mod reading;
pub mod screen;
pub mod slots;
pub mod sprite;
pub mod term;
pub mod text;
pub mod ticks;
pub mod ui;
