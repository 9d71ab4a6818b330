//! Per-connection session decisions: what one inbound frame does. The
//! surrounding read loop performs the I/O and the actuation calls; the
//! decision from frame to action is pure and verified here.
//!
//! Any text frame is decoded against a just-acquired configuration
//! snapshot; a successful decode is dispatched and feeds the watchdog,
//! while a failed decode is ignored and the connection stays open. A close
//! frame ends the loop; binary, ping and pong frames are no-ops.

use vstd::prelude::*;

use crate::configuration_v3::ConfigurationV3;
use crate::dispatcher::{plan_dispatch, spec_plan, ActuationCall};
use crate::protocol::{build_vibration_map, spec_build_vibration_map};
use crate::watchdog::{spec_fed_deadline, Watchdog, WATCHDOG_TIMEOUT_MILLIS};

verus! {

/// One inbound frame, reduced to what the decision needs.
pub enum Frame {
    Text(String),
    Binary,
    Ping,
    Pong,
    Close,
}

/// What the session loop does next: issue the planned actuation calls,
/// do nothing, or stop reading this connection.
pub enum SessionAction {
    Dispatch(Vec<ActuationCall>),
    Ignore,
    Stop,
}

/// Decide what one frame does. A valid command line yields the planned
/// calls and feeds the watchdog; everything else leaves the watchdog alone.
pub fn handle_frame(
    configuration: &ConfigurationV3,
    devices: &Vec<String>,
    watchdog: &mut Watchdog,
    now_millis: i64,
    frame: Frame,
) -> (r: SessionAction)
    requires
        now_millis <= i64::MAX - WATCHDOG_TIMEOUT_MILLIS,
    ensures
        match frame {
            Frame::Close => r is Stop && *final(watchdog) == *old(watchdog),
            Frame::Binary | Frame::Ping | Frame::Pong => r is Ignore && *final(watchdog) == *old(
                watchdog,
            ),
            Frame::Text(line) => match spec_build_vibration_map(line@, configuration@.tags) {
                Err(_) => r is Ignore && *final(watchdog) == *old(watchdog),
                Ok(m) => match r {
                    SessionAction::Dispatch(calls) => Seq::new(calls@.len(), |i: int| calls@[i]@)
                        == spec_plan(m, devices.deep_view()) && final(watchdog).deadline_millis
                        == spec_fed_deadline(now_millis as int),
                    _ => false,
                },
            },
        },
{
    match frame {
        Frame::Close => SessionAction::Stop,
        Frame::Binary => SessionAction::Ignore,
        Frame::Ping => SessionAction::Ignore,
        Frame::Pong => SessionAction::Ignore,
        Frame::Text(line) => {
            match build_vibration_map(configuration, line.as_str()) {
                Err(_) => SessionAction::Ignore,
                Ok(device_map) => {
                    let calls = plan_dispatch(device_map, devices);
                    watchdog.feed(now_millis);
                    SessionAction::Dispatch(calls)
                },
            }
        },
    }
}

} // verus!
