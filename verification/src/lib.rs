//! Compact storage for sequences of symbols drawn from a finite alphabet.
//!
//! An alphabet lists its symbols, an encoder gives each symbol a byte code,
//! and a sequence stores text as the codes of its symbols, one after another.
//!
//! - [`util::byte_id_generator`] writes an index in the fewest bytes that
//!   hold it, most significant byte first.
//! - [`alphabet`] holds the traits of alphabets and the DNA alphabets, and
//!   [`alphabet::encoding`] the encoders of their symbols.
//! - [`sequence`] splits text into symbols, however many bytes their
//!   characters take, and stores their codes.
//!
//! Alphabets and encoders are traits for others to implement, and the symbols
//! of an alphabet may change while it is in use. So the contracts of what is
//! built on them say what holds for every answer that the alphabet or the
//! encoder at hand may give, as its own contract describes it.

pub mod alphabet;
pub mod sequence;
pub mod util;
