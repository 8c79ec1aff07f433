//! Sixel graphics decoding and terminal snapshots.
//!
//! [`sixel`] turns the body of a sixel device control string into a packed
//! RGBA buffer, [`extent`] tells whether the machine can hold it, and
//! [`terminal`] wraps a virtual terminal whose visible state can be captured
//! and compared. What a stream means is written down in [`stream`], which cuts
//! it into commands, and in [`picture`], which says what each command does to
//! the picture; [`reader`] reads the commands, and [`laws`] proves what holds of
//! every stream. [`reading_laws`] says what the characters stand for,
//! [`painting_laws`] what each pixel comes to be, and [`image_laws`] what is
//! decoded from a stream that was written on purpose.

pub mod extent;
pub mod image_laws;
pub mod laws;
pub mod painting_laws;
pub mod picture;
pub mod pixel;
pub mod reader;
pub mod reading_laws;
pub mod sixel;
pub mod stream;
pub mod terminal;
