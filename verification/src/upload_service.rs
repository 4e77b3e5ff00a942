//! Starting and stopping the platform's background upload service.  The
//! platform's own scheduler runs backups now, so both have nothing to do.
use vstd::prelude::*;

verus! {

/// Starts the background upload service: nothing to do, the platform's
/// scheduler runs backups.
pub fn start_foreground_service() {
}

/// Stops the background upload service: nothing to do, the platform's
/// scheduler runs backups.
pub fn stop_foreground_service() {
}

} // verus!
