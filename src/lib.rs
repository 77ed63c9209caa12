//! A song toolkit around two verified cores: a steganographic codec that hides a byte
//! payload in the pixels of an RGBA image and reads it back, and the timing of a song's
//! voices as they are rendered sample by sample. Note names, note text, and base32
//! digits of the song formats live here too.

pub mod base32;
pub mod error;
pub mod image;
pub mod instrument;
pub mod note;
pub mod voice;
