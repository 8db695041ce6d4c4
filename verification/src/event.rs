//! Progress events for asset downloads, as the surrounding application
//! streams them to its interface.

use vstd::prelude::*;

verus! {

/// The state of one download.
#[derive(Clone, Debug)]
pub enum DownloadStatus {
    SendingGet,
    Started,
    Aborted,
    Ongoing,
    Finished,
    Error(String),
}

} // verus!
