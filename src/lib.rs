//! Segmented media download-and-mux pipeline: the decisions and text formats
//! behind fetching encrypted segments, reassembling them in order, repairing
//! subtitles, writing chapters and building the mux command line.
pub mod capacity;
pub mod chapters;
pub mod fonts;
pub mod lanes;
pub mod merge;
pub mod mux;
pub mod progress;
pub mod reassembly;
pub mod staging;
pub mod subtitles;
pub mod text;
pub mod timecode;
pub mod tracks;
