//! The commands that steer a peer's processing loop, and what each does
//! to the peer's connections.

use vstd::prelude::*;

use crate::connection_manager::ConnectionManager;
use crate::offline_packet_handler::max_ping_response_len;

verus! {

/// A command sent to a peer's processing loop. The commands are performed
/// between processing rounds.
pub enum Command {
    /// Releases the processing loop if it is waiting, so that it processes
    /// incoming and outgoing messages at once.
    ProcessNow,
    /// Sets the response returned to an offline ping. A response longer
    /// than 399 bytes is truncated.
    SetOfflinePingResponse(Vec<u8>),
    /// Stops the processing loop.
    StopProcessing,
}

/// Performs a command on the connections. Returns whether the processing
/// loop is to stop.
pub fn perform_command(manager: &mut ConnectionManager, command: Command) -> (stop: bool)
    ensures
        stop == (command is StopProcessing),
        final(manager).connections() == old(manager).connections(),
        final(manager).spec_config() == old(manager).spec_config(),
        final(manager).spec_peer_creation_time() == old(manager).spec_peer_creation_time(),
        final(manager).addr_list() == old(manager).addr_list(),
        match command {
            Command::SetOfflinePingResponse(r) => final(manager).ping_response() == if r@.len()
                > max_ping_response_len() {
                r@.take(max_ping_response_len() as int)
            } else {
                r@
            },
            _ => final(manager).ping_response() == old(manager).ping_response(),
        },
{
    match command {
        Command::ProcessNow => false,
        Command::SetOfflinePingResponse(ping_response) => {
            manager.set_offline_ping_response(ping_response);
            false
        },
        Command::StopProcessing => true,
    }
}

} // verus!
