//! How much a dump weighs: the bytes of the regular files of its directory,
//! and the unit in which to report them.

use crate::retention::DirEntry;
use vstd::prelude::*;

verus! {

/// Bytes in one gigabyte, counted in powers of 1024.
pub const BYTES_PER_GIGABYTE: u128 = 1_073_741_824;

/// The unit in which a size is reported.
#[derive(Clone, Copy, Debug, PartialEq, Eq, Structural)]
pub enum SizeUnit {
    /// Units of 1024 * 1024 bytes.
    Megabytes,
    /// Units of 1024 * 1024 * 1024 bytes.
    Gigabytes,
}

/// Bytes that `entry` adds to the size of its directory: its length if it
/// is a regular file, nothing otherwise.
pub open spec fn counted_bytes(entry: DirEntry) -> nat {
    if entry.is_file {
        entry.size as nat
    } else {
        0
    }
}

/// Sum of the lengths of the regular files among `entries`.
pub open spec fn file_bytes(entries: Seq<DirEntry>) -> nat
    decreases entries.len(),
{
    if entries.len() == 0 {
        0
    } else {
        file_bytes(entries.drop_last()) + counted_bytes(entries.last())
    }
}

/// Adds up the lengths of the regular files of a scanned directory.
/// Directories add nothing, whatever length the scan reports for them.
pub fn total_size(entries: &Vec<DirEntry>) -> (total: u128)
    ensures
        total == file_bytes(entries@),
{
    let mut total: u128 = 0;
    let mut i: usize = 0;
    while i < entries.len()
        invariant
            i <= entries.len(),
            total == file_bytes(entries@.take(i as int)),
            total <= i * u64::MAX,
        decreases entries.len() - i,
    {
        proof {
            assert(entries@.take(i + 1).drop_last() == entries@.take(i as int));
        }
        if entries[i].is_file {
            total = total + entries[i].size as u128;
        }
        i += 1;
    }
    assert(entries@.take(entries.len() as int) == entries@);
    total
}

/// Picks the unit for reporting `total` bytes: gigabytes from one gigabyte
/// on, megabytes below.
pub fn display_unit(total: u128) -> (unit: SizeUnit)
    ensures
        unit == (if total >= BYTES_PER_GIGABYTE {
            SizeUnit::Gigabytes
        } else {
            SizeUnit::Megabytes
        }),
{
    if total >= BYTES_PER_GIGABYTE {
        SizeUnit::Gigabytes
    } else {
        SizeUnit::Megabytes
    }
}

} // verus!
