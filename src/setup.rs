//! What must hold before a batch starts, and how the decoders are invoked.

use vstd::prelude::*;
use crate::paths::views;

verus! {

/// Why a batch cannot start.
#[derive(PartialEq, Eq, Structural, Clone, Copy, Debug)]
pub enum SetupError {
    /// The data-matrix decoder could not be launched.
    MatrixReaderMissing,
    /// The barcode decoder could not be launched.
    BarcodeReaderMissing,
    /// The starting path is not an existing directory.
    NotADirectory,
}

/// Decides whether a batch may start, from whether each decoder launched and
/// whether the starting path is a directory. The decoders are checked first,
/// in that order.
pub fn sanity_checks(matrix_reader_starts: bool, barcode_reader_starts: bool, start_is_dir: bool) -> (r:
    Result<(), SetupError>)
    ensures
        r == if !matrix_reader_starts {
            Err(SetupError::MatrixReaderMissing)
        } else if !barcode_reader_starts {
            Err(SetupError::BarcodeReaderMissing)
        } else if !start_is_dir {
            Err(SetupError::NotADirectory)
        } else {
            Ok(())
        },
{
    if !matrix_reader_starts {
        Err(SetupError::MatrixReaderMissing)
    } else if !barcode_reader_starts {
        Err(SetupError::BarcodeReaderMissing)
    } else if !start_is_dir {
        Err(SetupError::NotADirectory)
    } else {
        Ok(())
    }
}

/// The data-matrix decoder's arguments: stop after the first symbol, give up
/// after `scan_time` milliseconds, read the image at `path`.
pub fn matrix_args(path: &str, scan_time: &str) -> (r: Vec<String>)
    ensures
        views(r@) == seq!["--stop-after=1"@, "-m"@ + scan_time@, path@],
{
    let mut r: Vec<String> = Vec::new();
    r.push(String::from_str("--stop-after=1"));
    r.push(String::from_str("-m").concat(scan_time));
    r.push(String::from_str(path));
    assert(views(r@) =~= seq!["--stop-after=1"@, "-m"@ + scan_time@, path@]);
    r
}

} // verus!
