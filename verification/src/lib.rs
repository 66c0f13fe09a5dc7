//! OpenTako's text pipeline: sentence chunking, phonics-based phoneme
//! guessing, the pronunciation lexicon, the phoneme-id encoder, and the
//! decisions of the WebSocket and tray front ends.
pub mod bytes;
pub mod chars;
pub mod text;
pub mod phonics;
pub mod lexicon;
pub mod encoder;
pub mod protocol;
pub mod tray;
