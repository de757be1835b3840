use crate::frame::{decode_packet, TelemetryPacket, PACKET_SIZE};
use vstd::prelude::*;

verus! {

/// Seconds to wait before reconnecting to the upstream source.
pub const RECONNECT_DELAY_SECS: u64 = 5;

/// What the upstream connection delivered.
pub enum UpstreamEvent {
    /// A binary message: one frame.
    Binary(Vec<u8>),
    /// A text, ping or pong message.
    Other,
    /// The source closed the connection.
    Closed,
    /// The connection failed.
    Failed,
}

/// What the ingest loop does next.
#[derive(Debug, Clone, Copy, PartialEq, Eq)]
pub enum IngestAction {
    /// Store the frame, then publish it to subscribers.
    Store(TelemetryPacket),
    /// Ignore the message and keep reading.
    Skip,
    /// Drop the connection, wait, and connect again.
    Reconnect,
}

/// Decides what to do with one upstream event: decodable frames are stored
/// and published, undecodable frames and other messages are skipped, and a
/// closed or failed connection is re-established after a delay.
pub fn on_upstream_event(event: &UpstreamEvent) -> (r: IngestAction)
    ensures
        match event {
            UpstreamEvent::Binary(b) => if b@.len() >= PACKET_SIZE {
                r == IngestAction::Store(decode_packet(b@))
            } else {
                r == IngestAction::Skip
            },
            UpstreamEvent::Other => r == IngestAction::Skip,
            UpstreamEvent::Closed => r == IngestAction::Reconnect,
            UpstreamEvent::Failed => r == IngestAction::Reconnect,
        },
{
    match event {
        UpstreamEvent::Binary(b) => match TelemetryPacket::from_bytes(b.as_slice()) {
            Ok(p) => IngestAction::Store(p),
            Err(_) => IngestAction::Skip,
        },
        UpstreamEvent::Other => IngestAction::Skip,
        UpstreamEvent::Closed => IngestAction::Reconnect,
        UpstreamEvent::Failed => IngestAction::Reconnect,
    }
}

} // verus!
