//! Observable points in the life of a connection, as passive records handed
//! to a subscriber. Durations are in microseconds.
use vstd::prelude::*;

verus! {

/// Which packet space a header belongs to, with its packet number.
#[derive(Clone, Copy, Debug, PartialEq, Eq)]
pub enum PacketHeader {
    Initial { number: u64, version: u32 },
    Handshake { number: u64, version: u32 },
    ZeroRtt { number: u64, version: u32 },
    OneRtt { number: u64 },
    Retry { version: u32 },
    VersionNegotiation,
    StatelessReset,
}

/// A network path: the local and remote addresses, as bytes, and its id.
#[derive(Debug, PartialEq, Eq)]
pub struct Path {
    pub local_addr: Vec<u8>,
    pub remote_addr: Vec<u8>,
    pub id: u64,
}

/// A frame, by its type code on the wire.
#[derive(Clone, Copy, Debug, PartialEq, Eq)]
pub struct Frame {
    pub frame_type: u64,
}

#[derive(Clone, Copy, Debug, PartialEq, Eq)]
pub enum KeyType {
    OneRtt { generation: u16 },
}

/// The endpoint that acted.
#[derive(Clone, Copy, Debug, PartialEq, Eq)]
pub enum Location {
    Local,
    Remote,
}

#[derive(Clone, Copy, Debug, PartialEq, Eq)]
pub enum DuplicatePacketError {
    Duplicate,
    TooOld,
}

#[derive(Clone, Copy, Debug, PartialEq, Eq)]
pub enum DropReason {
    DecodingFailed,
    InvalidRemoteAddress,
    UnknownDestinationConnectionId,
    ConnectionError,
}

#[derive(Debug, PartialEq, Eq)]
pub struct VersionInformation {
    pub server_versions: Vec<u32>,
    pub client_versions: Vec<u32>,
    pub chosen_version: Option<u32>,
}

#[derive(Debug, PartialEq, Eq)]
pub struct AlpnInformation {
    pub server_alpns: Vec<Vec<u8>>,
    pub client_alpns: Vec<Vec<u8>>,
    pub chosen_alpn: Vec<u8>,
}

#[derive(Clone, Copy, Debug, PartialEq, Eq)]
pub struct PacketSent {
    pub packet_header: PacketHeader,
}

#[derive(Clone, Copy, Debug, PartialEq, Eq)]
pub struct PacketReceived {
    pub packet_header: PacketHeader,
}

#[derive(Clone, Copy, Debug, PartialEq, Eq)]
pub struct FrameSent {
    pub packet_header: PacketHeader,
    pub path_id: u64,
    pub frame: Frame,
}

#[derive(Clone, Copy, Debug, PartialEq, Eq)]
pub struct FrameReceived {
    pub packet_header: PacketHeader,
    pub path_id: u64,
    pub frame: Frame,
}

#[derive(Debug, PartialEq, Eq)]
pub struct ActivePathUpdated {
    pub previous: Path,
    pub active: Path,
}

#[derive(Debug, PartialEq, Eq)]
pub struct PathCreated {
    pub active: Path,
    pub new: Path,
}

#[derive(Debug, PartialEq, Eq)]
pub struct PacketLost {
    pub packet_header: PacketHeader,
    pub path: Path,
    pub bytes_lost: u16,
    pub is_mtu_probe: bool,
}

#[derive(Clone, Copy, Debug, PartialEq, Eq)]
pub struct RecoveryMetrics {
    pub path_id: u64,
    pub min_rtt: u64,
    pub smoothed_rtt: u64,
    pub latest_rtt: u64,
    pub rtt_variance: u64,
    pub max_ack_delay: u64,
    pub pto_count: u32,
    pub congestion_window: u32,
    pub bytes_in_flight: u32,
}

#[derive(Clone, Copy, Debug, PartialEq, Eq)]
pub struct KeyUpdate {
    pub key_type: KeyType,
}

#[derive(Debug, PartialEq, Eq)]
pub struct ConnectionStarted {
    pub path: Path,
}

/// A connection closed, with the transport error code that closed it.
#[derive(Clone, Copy, Debug, PartialEq, Eq)]
pub struct ConnectionClosed {
    pub error_code: u64,
}

#[derive(Clone, Copy, Debug, PartialEq, Eq)]
pub struct DuplicatePacket {
    pub packet_header: PacketHeader,
    pub path_id: u64,
    pub error: DuplicatePacketError,
}

#[derive(Clone, Copy, Debug, PartialEq, Eq)]
pub struct DatagramSent {
    pub len: u16,
}

#[derive(Clone, Copy, Debug, PartialEq, Eq)]
pub struct DatagramReceived {
    pub len: u16,
}

#[derive(Clone, Copy, Debug, PartialEq, Eq)]
pub struct DatagramDropped {
    pub len: u16,
    pub reason: DropReason,
}

#[derive(Debug, PartialEq, Eq)]
pub struct ConnectionIdUpdated {
    pub path_id: u64,
    /// The endpoint that updated its connection id.
    pub cid_consumer: Location,
    pub previous: Vec<u8>,
    pub current: Vec<u8>,
}

/// Receives events, one method per kind. Dispatch is synchronous; the
/// subscriber reads each record and cannot change it.
pub trait Subscriber {
    fn on_version_information(&mut self, event: &VersionInformation);

    fn on_alpn_information(&mut self, event: &AlpnInformation);

    fn on_packet_sent(&mut self, event: &PacketSent);

    fn on_packet_received(&mut self, event: &PacketReceived);

    fn on_frame_sent(&mut self, event: &FrameSent);

    fn on_frame_received(&mut self, event: &FrameReceived);

    fn on_active_path_updated(&mut self, event: &ActivePathUpdated);

    fn on_path_created(&mut self, event: &PathCreated);

    fn on_packet_lost(&mut self, event: &PacketLost);

    fn on_recovery_metrics(&mut self, event: &RecoveryMetrics);

    fn on_key_update(&mut self, event: &KeyUpdate);

    fn on_connection_started(&mut self, event: &ConnectionStarted);

    fn on_connection_closed(&mut self, event: &ConnectionClosed);

    fn on_duplicate_packet(&mut self, event: &DuplicatePacket);

    fn on_datagram_sent(&mut self, event: &DatagramSent);

    fn on_datagram_received(&mut self, event: &DatagramReceived);

    fn on_datagram_dropped(&mut self, event: &DatagramDropped);

    fn on_connection_id_updated(&mut self, event: &ConnectionIdUpdated);
}

} // verus!
