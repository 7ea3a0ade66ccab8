//! The decisions behind an automatic AV1 encoding service: container and bitstream
//! rewriting, scene planning, quality search, track selection and resume state.
pub mod audio;
pub mod av1;
pub mod bytes;
pub mod config;
pub mod crop;
pub mod daemon;
pub mod encode;
pub mod ext;
pub mod hdr;
pub mod hevc;
pub mod interlace;
pub mod job;
pub mod mkv;
pub mod path;
pub mod resume;
pub mod rpu;
pub mod scanner;
pub mod scene;
pub mod source;
pub mod subtitle;
pub mod target_quality;
pub mod text;
pub mod workers;
