//! Codec for GSSG savegame archives: a four-byte marker, the payload size, and a
//! zlib-compressed payload that lists named files with 4-byte aligned fields;
//! with the command-line decisions of the archive tool.
pub mod archive;
pub mod cli;
pub mod codec;
pub mod format;
pub mod laws;
pub mod sorting;
pub mod text;
pub mod zlib;

pub use archive::{DecodeError, EncodeError, EntryField, SaveArchive, SaveEntry};
pub use cli::{
    get_val, get_vals, has_flag, parse_flags, plan_decoder, plan_encoder, plan_invocation, CliError,
    Command, DecoderJob, EncoderJob, Flags, Invocation,
};
pub use codec::{decode, encode, encode_dir};
pub use format::{build_payload, fits_format, pad4_next, pad4_up, parse_payload};
pub use sorting::collect_entries_from_dir;
pub use text::{archive_entry_name, trim_nul_end};
