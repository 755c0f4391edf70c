//! The file-change notification contract: a watcher outside the core
//! calls each registered listener with the name of a file that was
//! written; the listener decides whether and how to react.

use vstd::prelude::*;

verus! {

/// A party that wants to hear about file writes. The configuration
/// implements this at composition time to trigger its reload.
pub trait FileListener {
    fn notify_file_changed(&mut self, file_name: &str);
}

} // verus!
