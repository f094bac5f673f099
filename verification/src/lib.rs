//! Fingerprinting and extraction of segments in MPEG transport-stream files.
//!
//! A transport stream is a run of fixed 188-byte packets, each opening with
//! the sync byte `0x47`. A *segment* is a maximal run of packets between two
//! consecutive Program Association Table restarts (PID 0 with the
//! payload-unit-start flag set). The library scans a stream into an ordered
//! index of `(hash, offset)` pairs, locates a clip inside an indexed stream
//! by its fingerprint, and extracts byte ranges.

use vstd::prelude::*;

pub mod cli;
pub mod codec;
pub mod cut;
pub mod hash;
pub mod header;
pub mod index;
pub mod matcher;
pub mod scanner;

verus! {

pub use cli::{CutSubcommand, HashSubcommand, MatchSubcommand, Subcommand};
pub use codec::{decode_index, encode_index, u64_to_string, CodecError};
pub use cut::{cut_range, CutError};
pub use hash::{HASH_INIT, HASH_PRIME};
pub use header::{MpegtsHeader, PACKET_SIZE, SYNC_BYTE};
pub use index::{segments_wf, HashFile, TsSegment};
pub use matcher::{cut_suggestion, match_segment, CutRange, CutSuggestion, MatchError};
pub use scanner::{build_index, scan_segments, spec_scan, ScanError};

} // verus!
