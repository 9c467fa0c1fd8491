//! Building blocks that the encoders and sequences rest on.

pub mod byte_id_generator;
pub mod text;
