//! Splits an extended M3U playlist into one playlist file per channel group.
//!
//! `scan` finds the entries of a playlist (an `#EXTINF:` line with a
//! `group-title` attribute, followed by a URL line), in one pass over a whole
//! text or one line at a time. `writer` derives each group's file name and
//! decides what a file holds after an entry is written to it. `split` runs
//! the two over an in-memory directory and `stats` counts what was written.
pub mod scan;
pub mod split;
pub mod stats;
pub mod text;
pub mod writer;

pub use scan::{extract_entries, is_url, parse_entry_line, ChannelRecord, EntryScanner};
pub use split::{process_m3u_content, PlaylistFiles};
pub use stats::ProcessingStats;
pub use text::{join_words, sanitize_filename, split_words, to_title_case};
pub use writer::{
    entry_text, generate_group_filename, header_step, m3u_header, updated_file, with_header,
    HeaderStep,
};
