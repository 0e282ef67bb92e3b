//! Decision logic of a scheduled database backup job: which remote archive
//! to evict, which local archives to prune, and the small rules around them.
//!
//! Nothing here touches the disk or the network. The caller scans
//! directories, lists the remote store and runs the deletions; the library
//! decides.

pub mod date;
pub mod elapsed;
pub mod eviction;
pub mod gzip;
pub mod index;
pub mod naming;
pub mod retention;
pub mod size;
pub mod text;

pub use date::{parse_date_prefix, Date, DateError};
pub use elapsed::{elapsed_time, format_elapsed};
pub use eviction::{find_oldest_file, select_oldest, ListingError};
pub use gzip::{gunzip, gzip, GzipError};
pub use index::{is_index_metadata, strip_id_index, Index, Metadata};
pub use naming::{generate_filename, name_from_parts};
pub use retention::{newest_first, prune, DirEntry, PrunePlan};
pub use size::{display_unit, total_size, SizeUnit};
pub use text::split_lines;
