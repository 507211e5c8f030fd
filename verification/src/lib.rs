pub mod batch;
pub mod error;
pub mod ffprobe;
pub mod text;
pub mod tools;
pub mod mp4;
pub mod paths;
pub mod xml;
pub mod xmp;
