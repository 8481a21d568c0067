//! A byte-exact codec for the costume-save metadata that an MMO client hides
//! inside the APP13/IPTC block of its JPEG screenshots.
//!
//! The crate walks a JPEG buffer into marker-delimited segments (including the
//! entropy-coded scan data), decodes the Photoshop/IPTC resource block carried
//! by the APP13 segment, exposes the costume fields stored there, and
//! re-serializes everything with freshly computed length prefixes.

pub mod app13;
pub mod be;
pub mod bytes_util;
pub mod costume;
pub mod hash_table;
pub mod jpeg;
pub mod numfmt;
pub mod segment;

pub use app13::IptcDataset;
pub use app13::JpegApp13Payload;
pub use app13::SegmentPayload;
pub use costume::generate_costume_hash;
pub use costume::get_file_name;
pub use costume::get_in_game_display_name;
pub use costume::is_valid_costume_file_name;
pub use costume::CostumeMetadata;
pub use costume::CostumeParseError;
pub use costume::CostumeSave;
pub use costume::UpdateCostumeMetadata;
pub use jpeg::Jpeg;
pub use jpeg::JpegSegment;
pub use jpeg::ParseError;
pub use segment::JpegSegmentType;
pub use segment::UnknownSegmentError;
