//! Spektra: the verified core of an audio spectrogram viewer.

pub mod audio;
pub mod canvas;
pub mod export;
pub mod grid;
pub mod note;
pub mod pipeline;
pub mod text;
