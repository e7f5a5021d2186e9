//! SimCity 2000 save file library.
//!
//! Reads the chunk container of a SimCity 2000 city file into an in-memory
//! model (city name, global statistics, a 128 x 128 grid of tile
//! attributes, picture header), renders that model as JSON, and writes the
//! container back out. The run-length codec, the container walk and the
//! record and grid extractors all carry proved contracts.

/// Big-endian integers and the calls into `byteorder`.
pub mod bytes;

/// Errors of the container parser, the codec and the extractors.
pub mod error;

/// The chunk payload run-length codec, as mathematical functions.
pub mod rle;

/// SimCity 2000 file reader and writer: the container and its chunks.
pub mod sc2kfile;

/// SimCity 2000 map information.
pub mod sc2kmap;

/// SimCity 2000 scenario picture.
pub mod sc2kpict;

/// SimCity 2000 stats.
pub mod sc2kstats;

/// Text building blocks of the JSON rendering.
pub mod text;
